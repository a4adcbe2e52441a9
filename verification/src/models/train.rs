use vstd::prelude::*;
use crate::gpu::gpu::{BufferId, Cmd, Fill, next_handle, nth_handle};
use crate::engine::tensor::{NodeView, lemma_pair, lemma_single, prod, segments_fit};
use crate::engine::pool::{Pool, Tensor, groups_ok, node_wf, releases};
use crate::engine::pool_ops::{backprop_ok, backprop_result, only_grads_differ, row_shape};
use crate::engine::optimizer::{OptView, OptimizerData, can_step, stepped, update_cmds};
use crate::engine::results::leaf_result;
use crate::primitives::activation::Activation;
use crate::primitives::loss::{LossFunction, loss_ok, loss_result};
use crate::hyperparameters::MlpHyperparameters;
use crate::models::mlp::{MLP, dims, dims_ok, forward_ok, forward_result, layer_activation, layer_fits, lemma_forward_fresh, matrix_shape};
use crate::engine::fresh::{fresh_step, lemma_fresh_misses, lemma_fresh_trans, lemma_leaf_fresh, lemma_releases_write_nothing, spares, writes_from};
use crate::engine::pool_ops::written;

verus! {

/// The nodes after an optimizer step on the parameters `0..pe`: each
/// parameter's data is the fresh buffer the update wrote, the handles being
/// allocated from `n0` on.
pub open spec fn updated_views(v: Seq<NodeView>, n0: usize, pe: usize) -> Seq<NodeView> {
    Seq::new(v.len(), |i: int|
        if i < pe { NodeView { data: BufferId(nth_handle(n0, i as nat)), ..v[i] } } else { v[i] })
}

/// What finishing a training step from the loss `loss` does: when every node
/// can take part (`done`), backpropagation from the loss, one optimizer step
/// on every parameter, and the graph after the parameters dropped; otherwise
/// only the graph dropped.
pub open spec fn finish_result(old: &Pool, old_opt: OptView, new: &Pool, new_opt: OptView, loss: Tensor, done: bool) -> bool {
    let pe = old.param_end;
    let s = backprop_result(old.views(), loss.0 as int, old.gpu.one, old.gpu.next_id());
    let u = updated_views(s.views, s.next, pe);
    &&& new.param_end == pe
    &&& new.gpu.one == old.gpu.one
    &&& if done {
        &&& new.views() == u.take(pe as int)
        &&& new.gpu.next_id() == nth_handle(s.next, pe as nat)
        &&& new.gpu.pending() == old.gpu.pending() + s.cmds + update_cmds(s.views, old_opt, s.next, pe as nat)
            + releases(u.skip(pe as int))
        &&& new_opt == stepped(old_opt, pe as nat)
    } else {
        &&& new.views() == old.views().take(pe as int)
        &&& new.gpu.next_id() == old.gpu.next_id()
        &&& new.gpu.pending() == old.gpu.pending() + releases(old.views().skip(pe as int))
        &&& new_opt == old_opt
    }
}

/// The shape of a forward pass's output for an input shaped `s`.
pub open spec fn out_shape(m: &MLP, s: Seq<usize>) -> Seq<usize> {
    if m.layers@.len() == 0 { s } else { seq![s[0], dims(&m.hyperparameters)[m.layers@.len() as int]] }
}

/// The sizes a training step on an `x_rows` by `x_cols` input and a `y_rows`
/// by `y_cols` target needs: both fit a `usize`, the forward pass fits, the
/// loss accepts the output and the target, and the optimizer can step.
pub open spec fn train_ok(m: &MLP, x_rows: usize, x_cols: usize, y_rows: usize, y_cols: usize) -> bool {
    let d = dims(&m.hyperparameters);
    let n = m.layers@.len() as int;
    let o = out_shape(m, seq![x_rows, x_cols]);
    &&& (x_rows as nat) * (x_cols as nat) <= usize::MAX
    &&& (y_rows as nat) * (y_cols as nat) <= usize::MAX
    &&& x_cols == d[0]
    &&& forall|i: int| 0 <= i < n ==> {
        &&& (x_rows as nat) * (#[trigger] d[i + 1] as nat) <= usize::MAX
        &&& groups_ok((x_rows * d[i + 1]) as usize)
        &&& layer_activation(&m.hyperparameters, i, n) == Activation::Softmax ==> groups_ok(x_rows)
    }
    &&& n > 1 ==> crate::engine::pool_ops::dropout_rate_ok(m.hyperparameters.dropout_rate_bits)
    &&& match m.hyperparameters.loss_function {
        LossFunction::MSE => {
            &&& seq![y_rows, y_cols] == o
            &&& groups_ok((o[0] * o[1]) as usize)
            &&& groups_ok(x_rows)
        },
        LossFunction::CrossEntropyLoss => groups_ok((y_rows * y_cols) as usize),
    }
    &&& can_step(m.optimizer_data@, m.pool.param_end as nat)
}

/// What a training step does: the input and the target are uploaded from the
/// host, the model runs forward, the loss is taken, and the step is finished.
pub open spec fn train_result(old: &MLP, new: &MLP, x_rows: usize, x_cols: usize, y_rows: usize, y_cols: usize, done: bool) -> bool {
    let l = old.pool.nodes@.len();
    let x = Tensor(l as usize);
    let y = Tensor((l + 1) as usize);
    exists|p1: Pool, p2: Pool, p3: Pool, p4: Pool, y_pred: Tensor, loss: Tensor|
        #[trigger] leaf_result(&old.pool, &p1, x, matrix_shape(x_rows, x_cols), Fill::Host)
        && #[trigger] leaf_result(&p1, &p2, y, matrix_shape(y_rows, y_cols), Fill::Host)
        && #[trigger] forward_result(old.layers@, &old.hyperparameters, &p2, &p3, x, y_pred)
        && #[trigger] loss_result(old.hyperparameters.loss_function, &p3, &p4, loss, y_pred, y)
        && done == backprop_ok(p4.views(), loss.0 as int)
        && finish_result(&p4, old.optimizer_data@, &new.pool, new.optimizer_data@, loss, done)
}

/// The parameters of a well-formed model fit the update kernel.
pub proof fn lemma_params_fit(m: &MLP)
    requires
        m.wf(),
    ensures
        forall|j: int| 0 <= j < m.pool.param_end ==> groups_ok(#[trigger] m.pool.views()[j].len),
{
    let d = dims(&m.hyperparameters);
    assert forall|j: int| 0 <= j < m.pool.param_end implies groups_ok(#[trigger] m.pool.views()[j].len) by {
        let i = j / 2;
        assert(0 <= i < m.layers@.len());
        assert(layer_fits(&m.pool, m.layers@[i], d[i], d[i + 1]));
        assert(node_wf(m.pool.views(), j));
        assert((d[i] as nat) * (d[i + 1] as nat) <= usize::MAX);
        lemma_pair(d[i], d[i + 1]);
        lemma_single(d[i + 1]);
        if j % 2 == 0 {
            assert(j == 2 * i);
            assert(m.layers@[i].w.0 == j);
        } else {
            assert(j == 2 * i + 1);
            assert(m.layers@[i].b.0 == j);
        }
    }
}

impl MLP {
    /// Finishes a training step whose loss is `loss`: backpropagates from it,
    /// steps the optimizer on every parameter and drops the step's graph. If
    /// some node of the graph is too large for the device's workgroup counts,
    /// only the graph is dropped; the result says whether the step was taken.
    pub fn finish_step(&mut self, loss: Tensor) -> (done: bool)
        requires
            old(self).wf(),
            old(self).pool.has(loss),
            can_step(old(self).optimizer_data@, old(self).pool.param_end as nat),
        ensures
            final(self).wf(),
            final(self).layers == old(self).layers,
            final(self).hyperparameters == old(self).hyperparameters,
            done == backprop_ok(old(self).pool.views(), loss.0 as int),
            finish_result(&old(self).pool, old(self).optimizer_data@, &final(self).pool, final(self).optimizer_data@, loss, done),
    {
        let ghost p0 = self.pool;
        let ghost d = dims(&self.hyperparameters);
        if !self.pool.fits_backprop(loss) {
            self.pool.flush();
            proof {
                assert forall|j: int| 0 <= j < p0.param_end implies (#[trigger] self.pool.views()[j]).shape == p0.views()[j].shape by {
                    assert(self.pool.views()[j] == p0.views()[j]);
                }
                self.lemma_wf_same_params(&p0);
            }
            return false;
        }
        self.pool.backpropogate(loss);
        let ghost p1 = self.pool;
        proof {
            lemma_params_fit(old(self));
            assert forall|i: int| 0 <= i < p1.param_end implies groups_ok(#[trigger] p1.views()[i].len) by {
                assert(groups_ok(p0.views()[i].len));
            }
        }
        self.pool.update_weights(&mut self.optimizer_data);
        let ghost p2 = self.pool;
        proof {
            let s = backprop_result(p0.views(), loss.0 as int, p0.gpu.one, p0.gpu.next_id());
            assert(p2.views() =~= updated_views(s.views, s.next, p0.param_end));
            assert(only_grads_differ(p1.views(), p0.views()));
        }
        self.pool.flush();
        proof {
            assert forall|j: int| 0 <= j < p0.param_end implies (#[trigger] self.pool.views()[j]).shape == p0.views()[j].shape by {
                assert(self.pool.views()[j] == p2.views()[j]);
                assert(p2.views()[j].shape == p1.views()[j].shape);
                assert(p1.views()[j].shape == p0.views()[j].shape);
            }
            self.lemma_wf_same_params(&p0);
        }
        true
    }

    /// While the parameters keep their shapes, the model stays well formed.
    proof fn lemma_wf_same_params(&self, p0: &Pool)
        requires
            self.pool.wf(),
            self.layers@.len() == self.hyperparameters.n_layers@.len(),
            dims_ok(dims(&self.hyperparameters)),
            self.pool.param_end == p0.param_end,
            p0.param_end == 2 * self.layers@.len(),
            p0.param_end <= p0.nodes@.len(),
            self.pool.views().len() >= p0.param_end,
            forall|j: int| 0 <= j < p0.param_end ==> (#[trigger] self.pool.views()[j]).shape == p0.views()[j].shape,
            forall|i: int| 0 <= i < self.layers@.len() ==> {
                &&& (#[trigger] self.layers@[i]).w.0 == 2 * i
                &&& self.layers@[i].b.0 == 2 * i + 1
                &&& layer_fits(p0, self.layers@[i], dims(&self.hyperparameters)[i], dims(&self.hyperparameters)[i + 1])
            },
            match self.optimizer_data@ {
                OptView::Sgd(lr) => self.hyperparameters.optimizer == crate::engine::optimizer::Optimizer::SGD
                    && lr == self.hyperparameters.lr_bits,
                OptView::Adam(os) => self.hyperparameters.optimizer == crate::engine::optimizer::Optimizer::AdamOptimizer
                    && os.len() == 2 * self.layers@.len(),
            },
        ensures
            self.wf(),
    {
        let d = dims(&self.hyperparameters);
        assert forall|i: int| 0 <= i < self.layers@.len() implies layer_fits(&self.pool, #[trigger] self.layers@[i], d[i], d[i + 1]) by {
            assert(layer_fits(p0, self.layers@[i], d[i], d[i + 1]));
            assert(self.pool.views()[2 * i].shape == p0.views()[2 * i].shape);
            assert(self.pool.views()[2 * i + 1].shape == p0.views()[2 * i + 1].shape);
        }
    }
}


impl MLP {
    /// One training step on an `x_rows` by `x_cols` input and a `y_rows` by
    /// `y_cols` target, whose floats the host supplies for the two uploads in
    /// that order; says whether the step was taken (see `finish_step`).
    pub fn train_once(&mut self, x_rows: usize, x_cols: usize, y_rows: usize, y_cols: usize) -> (done: bool)
        requires
            old(self).wf(),
            train_ok(old(self), x_rows, x_cols, y_rows, y_cols),
        ensures
            final(self).wf(),
            final(self).layers == old(self).layers,
            final(self).hyperparameters == old(self).hyperparameters,
            train_result(old(self), final(self), x_rows, x_cols, y_rows, y_cols, done),
    {
        let ghost p0 = self.pool;
        let ghost d = dims(&self.hyperparameters);
        proof {
            lemma_pair(x_rows, x_cols);
            lemma_pair(y_rows, y_cols);
        }
        let mut xs: Vec<usize> = Vec::new();
        xs.push(x_rows);
        xs.push(x_cols);
        assert(xs@ =~= matrix_shape(x_rows, x_cols));
        let x = self.pool.new_tensor(x_rows * x_cols, xs);
        let ghost p1 = self.pool;
        let mut ys: Vec<usize> = Vec::new();
        ys.push(y_rows);
        ys.push(y_cols);
        assert(ys@ =~= matrix_shape(y_rows, y_cols));
        let y = self.pool.new_tensor(y_rows * y_cols, ys);
        let ghost p2 = self.pool;
        proof {
            assert forall|j: int| 0 <= j < p0.param_end implies (#[trigger] self.pool.views()[j]).shape == p0.views()[j].shape by {
                assert(self.pool.nodes@[j]@ == p1.nodes@[j]@);
                assert(p1.nodes@[j]@ == p0.nodes@[j]@);
            }
            self.lemma_wf_same_params(&p0);
            assert(self.pool.node(x) == p1.node(x));
            assert(row_shape(self.pool.node(x).shape) == self.pool.node(x).shape);
        }
        let y_pred = self.call(x);
        let ghost p3 = self.pool;
        proof {
            assert(p3.node(y) == p2.node(y));
            assert(node_wf(p3.views(), y_pred.0 as int));
            assert(node_wf(p3.views(), y.0 as int));
            if self.layers@.len() > 0 {
                let n = self.layers@.len() as int;
                assert((x_rows as nat) * (d[n - 1 + 1] as nat) <= usize::MAX);
                lemma_pair(x_rows, d[n]);
            }
        }
        let f = self.hyperparameters.loss_function;
        let loss = f.apply(&mut self.pool, y_pred, y);
        let ghost p4 = self.pool;
        proof {
            assert forall|j: int| 0 <= j < p0.param_end implies (#[trigger] self.pool.views()[j]).shape == p0.views()[j].shape by {
                assert(self.pool.nodes@[j]@ == p3.nodes@[j]@);
            }
            self.lemma_wf_same_params(&p0);
        }
        let done = self.finish_step(loss);
        proof {
            assert(leaf_result(&p0, &p1, x, matrix_shape(x_rows, x_cols), Fill::Host));
            assert(leaf_result(&p1, &p2, y, matrix_shape(y_rows, y_cols), Fill::Host));
            assert(x == Tensor(p0.nodes@.len() as usize));
            assert(y == Tensor((p0.nodes@.len() + 1) as usize));
            assert(train_result(old(self), self, x_rows, x_cols, y_rows, y_cols, done));
        }
        done
    }
}


/// The settings `hp` with dropout switched off.
pub open spec fn without_dropout(hp: &MlpHyperparameters) -> MlpHyperparameters {
    MlpHyperparameters { dropout_rate_bits: 0, ..*hp }
}

/// What `eval` of one row of `x_len` floats does to the model, returning `r`:
/// the model's settings are back as they were; the input is uploaded as a new
/// leaf and run forward with dropout off; the output row is copied into the
/// fresh buffer `r.0` of `r.1` floats; then every node after the parameters
/// is dropped and its buffers given back.
pub open spec fn eval_result(old: &MLP, new: &MLP, x_len: usize, r: (BufferId, usize)) -> bool {
    let pe = old.pool.param_end;
    &&& new.layers == old.layers
    &&& new.hyperparameters == old.hyperparameters
    &&& new.optimizer_data == old.optimizer_data
    &&& new.pool.views() == old.pool.views().take(pe as int)
    &&& new.pool.param_end == pe
    &&& new.pool.gpu.one == old.pool.gpu.one
    &&& exists|p1: Pool, p2: Pool, t: Tensor|
        leaf_result(&old.pool, &p1, Tensor(old.pool.nodes@.len() as usize), matrix_shape(1, x_len), Fill::Host)
        && #[trigger] forward_result(old.layers@, &without_dropout(&old.hyperparameters), &p1, &p2,
            Tensor(old.pool.nodes@.len() as usize), t)
        && p2.has(t)
        && r == (BufferId(p2.gpu.next_id()), p2.node(t).len)
        && new.pool.gpu.next_id() == next_handle(p2.gpu.next_id())
        && new.pool.gpu.pending() == p2.gpu.pending() + seq![
            Cmd::Create { buffer: r.0, len: r.1, fill: Fill::Uninit },
            Cmd::Copy { source: p2.node(t).data, destination: r.0, len: r.1 },
        ] + releases(p2.views().skip(pe as int))
    &&& old.layers@.len() > 0 ==> r.1 == dims(&old.hyperparameters)[old.layers@.len() as int]
    &&& fresh_step(&old.pool, &new.pool)
}

/// Evaluating a model whose pool holds only its parameters leaves the model
/// as it was: the same nodes (so the same parameter buffers), the same
/// settings (dropout back at its rate) and the same optimizer state; and,
/// unless the handle counter has stopped at the top of `usize`, none of the
/// work it plans writes a parameter's data, gradient or saved buffers or the
/// constant buffer.
pub proof fn lemma_eval_keeps_model(old: &MLP, new: &MLP, x_len: usize, r: (BufferId, usize))
    requires
        old.wf(),
        old.pool.nodes@.len() == old.pool.param_end,
        eval_result(old, new, x_len, r),
    ensures
        new.pool.views() == old.pool.views(),
        new.pool.param_end == old.pool.param_end,
        new.layers == old.layers,
        new.hyperparameters == old.hyperparameters,
        new.optimizer_data == old.optimizer_data,
        old.pool.gpu.next_id() < usize::MAX ==> exists|cs: Seq<Cmd>|
            new.pool.gpu.pending() == old.pool.gpu.pending() + cs
            && #[trigger] spares(cs, old.pool.views(), old.pool.gpu.one),
{
    assert(old.pool.views().take(old.pool.param_end as int) =~= old.pool.views());
    if old.pool.gpu.next_id() < usize::MAX {
        let cs = choose|cs: Seq<Cmd>| new.pool.gpu.pending() == old.pool.gpu.pending() + cs
            && #[trigger] writes_from(cs, old.pool.gpu.next_id());
        lemma_fresh_misses(cs, old.pool.gpu.next_id(), old.pool.views(), old.pool.gpu.one);
    }
}

impl MLP {
    /// Runs the model on one input row of `x_len` floats, which the host
    /// supplies for the upload, with dropout switched off. The output row is
    /// copied into a fresh buffer, returned with its length for the host to
    /// read and give back; then the graph is dropped, so the pool keeps only
    /// its parameters.
    #[verifier::rlimit(80)]
    #[verifier::spinoff_prover]
    pub fn eval(&mut self, x_len: usize) -> (r: (BufferId, usize))
        requires
            old(self).wf(),
            x_len == dims(&old(self).hyperparameters)[0],
        ensures
            final(self).wf(),
            eval_result(old(self), final(self), x_len, r),
    {
        let ghost p0 = self.pool;
        let ghost d = dims(&self.hyperparameters);
        let old_dropout_rate = self.hyperparameters.dropout_rate_bits;
        self.hyperparameters.dropout_rate_bits = 0;
        proof {
            lemma_pair(1, x_len);
            assert(self.hyperparameters == without_dropout(&old(self).hyperparameters));
        }
        let mut xs: Vec<usize> = Vec::new();
        xs.push(1);
        xs.push(x_len);
        assert(xs@ =~= matrix_shape(1, x_len));
        let x = self.pool.new_tensor(x_len, xs);
        let ghost p1 = self.pool;
        proof {
            assert forall|j: int| 0 <= j < p0.param_end implies (#[trigger] self.pool.views()[j]).shape == p0.views()[j].shape by {
                assert(self.pool.nodes@[j]@ == p0.nodes@[j]@);
            }
            self.lemma_wf_same_params(&p0);
            assert(row_shape(self.pool.node(x).shape) == self.pool.node(x).shape);
            assert forall|i: int| 0 <= i < self.layers@.len() implies {
                &&& (1 as nat) * (#[trigger] d[i + 1] as nat) <= usize::MAX
                &&& groups_ok((1 * d[i + 1]) as usize)
            } by {
                assert(dims_ok(d));
                assert((d[i] as nat) * (d[i + 1] as nat) <= usize::MAX);
                assert(groups_ok(d[i + 1]));
            }
            assert(crate::engine::pool::div_ceil(1, 256) == 1);
            assert(crate::engine::pool_ops::dropout_rate_ok(0u32));
        }
        let t = self.call(x);
        self.hyperparameters.dropout_rate_bits = old_dropout_rate;
        let ghost p2 = self.pool;
        let len = self.pool.nodes[t.0].len;
        let data = self.pool.nodes[t.0].data;
        let out = self.pool.gpu.empty_buffer(len);
        self.pool.gpu.copy_buffer(data, out, len);
        let ghost p3 = self.pool;
        proof {
            assert(p3.views() == p2.views());
            self.pool.lemma_wf_grows(&p2);
            if self.layers@.len() > 0 {
                let n = self.layers@.len() as int;
                assert(p2.node(t).shape == seq![1usize, d[n]]);
                assert((1 as nat) * (d[n] as nat) <= usize::MAX);
                lemma_pair(1, d[n]);
                assert(node_wf(p2.views(), t.0 as int));
            }
            assert forall|j: int| 0 <= j < p0.param_end implies (#[trigger] self.pool.views()[j]).shape == p0.views()[j].shape by {
                assert(self.pool.nodes@[j]@ == p0.nodes@[j]@);
            }
            self.lemma_wf_same_params(&p0);
        }
        self.flush();
        proof {
            assert(leaf_result(&p0, &p1, x, matrix_shape(1, x_len), Fill::Host));
            assert(x == Tensor(p0.nodes@.len() as usize));
            assert(p1.views().take(p0.param_end as int) =~= p0.views().take(p0.param_end as int)) by {
                assert forall|j: int| 0 <= j < p0.param_end implies p1.views()[j] == p0.views()[j] by {
                    assert(p1.nodes@[j]@ == p0.nodes@[j]@);
                }
            }
            assert(p3.views().take(p0.param_end as int) =~= p0.views().take(p0.param_end as int)) by {
                assert forall|j: int| 0 <= j < p0.param_end implies p3.views()[j] == p0.views()[j] by {
                    assert(p3.nodes@[j]@ == p0.nodes@[j]@);
                }
            }
            assert(forward_result(old(self).layers@, &without_dropout(&old(self).hyperparameters), &p1, &p2, x, t));
            assert(self.pool.views() == old(self).pool.views().take(p0.param_end as int));
            assert(self.pool.gpu.next_id() == next_handle(p2.gpu.next_id()));
            assert(self.pool.gpu.pending() == p2.gpu.pending() + seq![
                Cmd::Create { buffer: out, len, fill: Fill::Uninit },
                Cmd::Copy { source: p2.node(t).data, destination: out, len },
            ] + releases(p2.views().skip(p0.param_end as int)));
            assert(self.layers == old(self).layers);
            assert(self.hyperparameters == old(self).hyperparameters);
            lemma_leaf_fresh(&p0, &p1, x, matrix_shape(1, x_len), Fill::Host);
            lemma_forward_fresh(old(self).layers@, &without_dropout(&old(self).hyperparameters), &p1, &p2, x, t);
            let copy = seq![
                Cmd::Create { buffer: out, len, fill: Fill::Uninit },
                Cmd::Copy { source: p2.node(t).data, destination: out, len },
            ];
            assert(writes_from(copy, p2.gpu.next_id())) by {
                assert forall|j: int, k: int| 0 <= j < copy.len() && 0 <= k < written(copy[j]).len()
                    implies (#[trigger] written(copy[j])[k]).0 >= p2.gpu.next_id() by {
                    if j == 0 {
                        assert(written(copy[0]) == seq![out]);
                    } else {
                        assert(written(copy[1]) == seq![out]);
                    }
                }
            }
            assert(p3.gpu.pending() =~= p2.gpu.pending() + copy);
            assert(fresh_step(&p2, &p3));
            let rel = releases(p3.views().skip(p0.param_end as int));
            lemma_releases_write_nothing(p3.views().skip(p0.param_end as int), p3.gpu.next_id());
            assert(self.pool.gpu.pending() =~= p3.gpu.pending() + rel);
            assert(fresh_step(&p3, &self.pool));
            lemma_fresh_trans(&p0, &p1, &p2);
            lemma_fresh_trans(&p0, &p2, &p3);
            lemma_fresh_trans(&p0, &p3, &self.pool);
        }
        (out, len)
    }

    /// Drops the graph after the parameters, giving its buffers back.
    pub fn flush(&mut self)
        requires
            old(self).wf(),
        ensures
            final(self).wf(),
            final(self).layers == old(self).layers,
            final(self).hyperparameters == old(self).hyperparameters,
            final(self).optimizer_data == old(self).optimizer_data,
            final(self).pool.views() == old(self).pool.views().take(old(self).pool.param_end as int),
            final(self).pool.param_end == old(self).pool.param_end,
            final(self).pool.gpu.one == old(self).pool.gpu.one,
            final(self).pool.gpu.pending() == old(self).pool.gpu.pending()
                + releases(old(self).pool.views().skip(old(self).pool.param_end as int)),
            final(self).pool.gpu.next_id() == old(self).pool.gpu.next_id(),
    {
        let ghost p0 = self.pool;
        self.pool.flush();
        proof {
            assert forall|j: int| 0 <= j < p0.param_end implies (#[trigger] self.pool.views()[j]).shape == p0.views()[j].shape by {
                assert(self.pool.views()[j] == p0.views()[j]);
            }
            self.lemma_wf_same_params(&p0);
        }
    }

    /// The parameters, layer by layer: each layer's weights, then its bias.
    pub fn parameters(&self) -> (r: Vec<Tensor>)
        ensures
            r@.len() == 2 * self.layers@.len(),
            forall|i: int| 0 <= i < self.layers@.len() ==>
                r@[2 * i] == (#[trigger] self.layers@[i]).w && r@[2 * i + 1] == self.layers@[i].b,
    {
        let mut r: Vec<Tensor> = Vec::new();
        let n = self.layers.len();
        for i in 0..n
            invariant
                n == self.layers@.len(),
                r@.len() == 2 * i,
                forall|q: int| 0 <= q < i ==>
                    r@[2 * q] == (#[trigger] self.layers@[q]).w && r@[2 * q + 1] == self.layers@[q].b,
        {
            let ps = self.layers[i].parameters();
            r.push(ps[0]);
            r.push(ps[1]);
        }
        r
    }
}


/// The end of chunk `k` of `bs` elements out of `len`.
pub open spec fn chunk_end(k: int, bs: int, len: int) -> int {
    if (k + 1) * bs < len { (k + 1) * bs } else { len }
}

/// The start of chunk `k` of `bs` elements out of `len`.
pub open spec fn chunk_start(k: int, bs: int, len: int) -> int {
    if k * bs < len { k * bs } else { len }
}

/// `k` chunks of `bs` cover `len` elements, and `k - 1` do not: `k` is
/// `len / bs` rounded up.
pub proof fn lemma_chunk_count(k: int, bs: int, len: int)
    requires
        bs > 0,
        len >= 0,
        k >= 0,
        k * bs >= len,
        k == 0 || (k - 1) * bs < len,
    ensures
        k == crate::engine::pool::div_ceil(len as nat, bs as nat),
{
    let q = len / bs;
    let r = len % bs;
    vstd::arithmetic::div_mod::lemma_fundamental_div_mod(len, bs);
    assert(0 <= r < bs);
    if r == 0 {
        assert(len == bs * q);
        assert(k == q) by (nonlinear_arith)
            requires k * bs >= len, k == 0 || (k - 1) * bs < len, len == bs * q, bs > 0, q >= 0, k >= 0;
    } else {
        assert(len == bs * q + r);
        assert(k == q + 1) by (nonlinear_arith)
            requires k * bs >= len, k == 0 || (k - 1) * bs < len, len == bs * q + r, bs > 0, 0 < r < bs, q >= 0, k >= 0;
    }
}

/// `v` cut into consecutive chunks of `bs` elements, the last one shorter.
pub fn chunks_of(v: &Vec<usize>, bs: usize) -> (r: Vec<Vec<usize>>)
    requires
        bs > 0,
    ensures
        r@.len() == crate::engine::pool::div_ceil(v@.len(), bs as nat),
        forall|k: int| 0 <= k < r@.len() ==>
            (#[trigger] r@[k])@ == v@.subrange(k * bs, chunk_end(k, bs as int, v@.len() as int)),
{
    let len = v.len();
    let mut r: Vec<Vec<usize>> = Vec::new();
    let mut start: usize = 0;
    while start < len
        invariant
            len == v@.len(),
            bs > 0,
            start == chunk_start(r@.len() as int, bs as int, len as int),
            r@.len() == 0 || (r@.len() - 1) * bs < len,
            forall|k: int| 0 <= k < r@.len() ==>
                (#[trigger] r@[k])@ == v@.subrange(k * bs, chunk_end(k, bs as int, len as int)),
        decreases len - start,
    {
        let ghost k = r@.len() as int;
        proof {
            assert(k * bs < len);
            assert((k + 1) * bs == k * bs + bs) by (nonlinear_arith);
        }
        let end = if len - start < bs { len } else { start + bs };
        assert(end == chunk_end(k, bs as int, len as int));
        let mut chunk: Vec<usize> = Vec::new();
        for i in start..end
            invariant
                start <= end <= len,
                len == v@.len(),
                chunk@ == v@.subrange(start as int, i as int),
        {
            chunk.push(v[i]);
            assert(chunk@ =~= v@.subrange(start as int, i + 1));
        }
        r.push(chunk);
        start = end;
        proof {
            assert(start == chunk_start(k + 1, bs as int, len as int));
        }
    }
    proof {
        let k = r@.len() as int;
        assert(k * bs >= len);
        assert(k >= 0 && bs > 0);
        lemma_chunk_count(k, bs as int, len as int);
    }
    r
}

/// The row indices `0..n` in a random order, cut into consecutive batches
/// of `batch_size`, the last one shorter.
pub fn shuffled_chunks(n: usize, batch_size: usize) -> (r: Vec<Vec<usize>>)
    requires
        batch_size > 0,
    ensures
        exists|order: Seq<usize>| {
            &&& order.len() == n
            &&& #[trigger] order.to_multiset() == Seq::new(n as nat, |i: int| i as usize).to_multiset()
            &&& r@.len() == crate::engine::pool::div_ceil(n as nat, batch_size as nat)
            &&& forall|k: int| 0 <= k < r@.len() ==>
                (#[trigger] r@[k])@ == order.subrange(k * batch_size, chunk_end(k, batch_size as int, n as int))
        },
{
    let mut indices: Vec<usize> = Vec::new();
    for i in 0..n
        invariant
            indices@ == Seq::new(i as nat, |q: int| q as usize),
    {
        indices.push(i);
        assert(indices@ =~= Seq::new((i + 1) as nat, |q: int| q as usize));
    }
    crate::rng::shuffle(&mut indices);
    let r = chunks_of(&indices, batch_size);
    assert(indices@.to_multiset() == Seq::new(n as nat, |q: int| q as usize).to_multiset());
    r
}

/// The chunks one after the other.
pub open spec fn flatten(s: Seq<Seq<usize>>) -> Seq<usize>
    decreases s.len(),
{
    if s.len() == 0 { Seq::empty() } else { flatten(s.drop_last()) + s.last() }
}

/// Cutting into chunks loses and repeats nothing: the chunks of `v`, one
/// after the other, are `v`.
pub proof fn lemma_chunks_partition(v: Seq<usize>, bs: int, chunks: Seq<Seq<usize>>)
    requires
        bs > 0,
        chunks.len() == crate::engine::pool::div_ceil(v.len(), bs as nat),
        forall|k: int| 0 <= k < chunks.len() ==> #[trigger] chunks[k] == v.subrange(k * bs, chunk_end(k, bs, v.len() as int)),
    ensures
        flatten(chunks) == v,
{
    let n = chunks.len() as int;
    let len = v.len() as int;
    assert forall|k: int| 0 <= k <= n implies #[trigger] flatten(chunks.take(k)) == v.subrange(0, if k == 0 { 0 } else { chunk_end(k - 1, bs, len) }) by {
        lemma_flatten_prefix(v, bs, chunks, k);
    }
    assert(chunks.take(n) =~= chunks);
    if n == 0 {
        assert(len == 0) by {
            if len > 0 {
                assert(crate::engine::pool::div_ceil(len as nat, bs as nat) >= 1) by (nonlinear_arith)
                    requires len > 0, bs > 0;
            }
        }
        assert(v =~= Seq::<usize>::empty());
    } else {
        assert(len > 0) by {
            if len == 0 {
                assert(0nat % (bs as nat) == 0 && 0nat / (bs as nat) == 0) by (nonlinear_arith) requires bs > 0;
                assert(crate::engine::pool::div_ceil(0, bs as nat) == 0);
            }
        }
        assert(chunk_end(n - 1, bs, len) == len) by {
            lemma_last_chunk_end(len, bs, n);
        }
        assert(v.subrange(0, len) =~= v);
    }
}

proof fn lemma_last_chunk_end(len: int, bs: int, n: int)
    requires
        bs > 0,
        len > 0,
        n == crate::engine::pool::div_ceil(len as nat, bs as nat),
    ensures
        n >= 1,
        n * bs >= len,
        chunk_end(n - 1, bs, len) == len,
{
    let q = len / bs;
    let r = len % bs;
    vstd::arithmetic::div_mod::lemma_fundamental_div_mod(len, bs);
    if r == 0 {
        assert(n * bs >= len) by (nonlinear_arith) requires n == q, len == bs * q;
        assert(n >= 1) by (nonlinear_arith) requires n == q, len == bs * q, len > 0, bs > 0;
    } else {
        assert(n * bs >= len) by (nonlinear_arith) requires n == q + 1, len == bs * q + r, r < bs;
        assert(n >= 1) by (nonlinear_arith) requires n == q + 1, q >= 0;
    }
}

proof fn lemma_flatten_prefix(v: Seq<usize>, bs: int, chunks: Seq<Seq<usize>>, k: int)
    requires
        bs > 0,
        0 <= k <= chunks.len(),
        chunks.len() == crate::engine::pool::div_ceil(v.len(), bs as nat),
        forall|q: int| 0 <= q < chunks.len() ==> #[trigger] chunks[q] == v.subrange(q * bs, chunk_end(q, bs, v.len() as int)),
    ensures
        flatten(chunks.take(k)) == v.subrange(0, if k == 0 { 0 } else { chunk_end(k - 1, bs, v.len() as int) }),
    decreases k,
{
    let len = v.len() as int;
    if k == 0 {
        assert(chunks.take(0) =~= Seq::<Seq<usize>>::empty());
        assert(v.subrange(0, 0) =~= Seq::<usize>::empty());
    } else {
        lemma_flatten_prefix(v, bs, chunks, k - 1);
        assert(chunks.take(k).drop_last() =~= chunks.take(k - 1));
        let start: int = if k - 1 == 0 { 0 } else { chunk_end(k - 2, bs, len) };
        assert(start == (k - 1) * bs) by {
            if k - 1 > 0 {
                lemma_last_chunk_end_bound(len, bs, k - 1, chunks.len() as int);
            }
        }
        assert((k - 1) * bs <= len) by {
            lemma_last_chunk_end_bound(len, bs, k, chunks.len() as int);
        }
        assert(k * bs == (k - 1) * bs + bs) by (nonlinear_arith);
        assert(start <= chunk_end(k - 1, bs, len) <= len);
        assert(v.subrange(0, start) + v.subrange(start, chunk_end(k - 1, bs, len)) =~= v.subrange(0, chunk_end(k - 1, bs, len)));
    }
}

/// Every chunk but the last is full: chunk `k - 1` (for `k` below the
/// number of chunks) ends at `k * bs`, and chunk `k - 1` starts within `v`.
proof fn lemma_last_chunk_end_bound(len: int, bs: int, k: int, n: int)
    requires
        bs > 0,
        len >= 0,
        n == crate::engine::pool::div_ceil(len as nat, bs as nat),
        1 <= k <= n,
    ensures
        (k - 1) * bs < len,
        k < n ==> chunk_end(k - 1, bs, len) == k * bs,
{
    let q = len / bs;
    let r = len % bs;
    vstd::arithmetic::div_mod::lemma_fundamental_div_mod(len, bs);
    if r == 0 {
        assert((k - 1) * bs < len) by (nonlinear_arith) requires n == q, len == bs * q, 1 <= k <= n, bs > 0;
        if k < n {
            assert(k * bs < len) by (nonlinear_arith) requires n == q, len == bs * q, k < n, bs > 0;
        }
    } else {
        assert((k - 1) * bs < len) by (nonlinear_arith) requires n == q + 1, len == bs * q + r, 1 <= k <= n, bs > 0, r > 0;
        if k < n {
            assert(k * bs < len) by (nonlinear_arith) requires n == q + 1, len == bs * q + r, k < n, bs > 0, r > 0;
        }
    }
}

/// Whether the layer widths of `hp` are ones a model can be made with.
pub fn dims_fit(hp: &MlpHyperparameters) -> (b: bool)
    ensures
        b == dims_ok(dims(hp)),
{
    let n = hp.n_layers.len();
    let ghost d = dims(hp);
    let mut i: usize = 0;
    while i < n
        invariant
            n == hp.n_layers@.len(),
            d == dims(hp),
            d.len() == n + 1,
            i <= n,
            forall|q: int| 0 <= q < i ==> {
                &&& (#[trigger] d[q] as nat) * (d[q + 1] as nat) <= usize::MAX
                &&& groups_ok((d[q] * d[q + 1]) as usize)
                &&& groups_ok(d[q + 1])
            },
        decreases n - i,
    {
        let a = if i == 0 { hp.n_inputs } else { hp.n_layers[i - 1] };
        let b = hp.n_layers[i];
        assert(a == d[i as int] && b == d[i + 1]);
        let p = a.checked_mul(b);
        match p {
            None => return false,
            Some(prod) => {
                if !Pool::groups_fit(prod) || !Pool::groups_fit(b) {
                    return false;
                }
            },
        }
        i = i + 1;
    }
    true
}

impl MLP {
    /// Whether a training step on an `x_rows` by `x_cols` input and a
    /// `y_rows` by `y_cols` target fits (see `train_ok`).
    pub fn train_fits(&self, x_rows: usize, x_cols: usize, y_rows: usize, y_cols: usize) -> (b: bool)
        requires
            self.wf(),
        ensures
            b == train_ok(self, x_rows, x_cols, y_rows, y_cols),
    {
        let ghost d = dims(&self.hyperparameters);
        let n = self.layers.len();
        let xp = x_rows.checked_mul(x_cols);
        let yp = y_rows.checked_mul(y_cols);
        if xp.is_none() || yp.is_none() || x_cols != self.hyperparameters.n_inputs {
            return false;
        }
        let mut i: usize = 0;
        while i < n
            invariant
                n == self.layers@.len(),
                n == self.hyperparameters.n_layers@.len(),
                d == dims(&self.hyperparameters),
                d.len() == n + 1,
                i <= n,
                forall|q: int| 0 <= q < i ==> {
                    &&& (x_rows as nat) * (#[trigger] d[q + 1] as nat) <= usize::MAX
                    &&& groups_ok((x_rows * d[q + 1]) as usize)
                    &&& layer_activation(&self.hyperparameters, q, n as int) == Activation::Softmax ==> groups_ok(x_rows)
                },
            decreases n - i,
        {
            let w = self.hyperparameters.n_layers[i];
            assert(w == d[i + 1]);
            let act = if i + 1 == n { self.hyperparameters.output_activation } else { self.hyperparameters.hidden_activation };
            assert(act == layer_activation(&self.hyperparameters, i as int, n as int));
            match x_rows.checked_mul(w) {
                None => return false,
                Some(p) => {
                    if !Pool::groups_fit(p) {
                        return false;
                    }
                },
            }
            if act == Activation::Softmax && !Pool::groups_fit(x_rows) {
                return false;
            }
            i = i + 1;
        }
        if n > 1 && !crate::engine::pool_ops::dropout_rate_fits(self.hyperparameters.dropout_rate_bits) {
            return false;
        }
        let o0 = x_rows;
        let o1 = if n == 0 { x_cols } else { self.hyperparameters.n_layers[n - 1] };
        proof {
            assert(out_shape(self, seq![x_rows, x_cols]) == seq![o0, o1]);
            if n > 0 {
                assert(o1 == d[n as int]);
                assert((x_rows as nat) * (d[(n - 1) + 1] as nat) <= usize::MAX);
            }
        }
        let loss_fits = match self.hyperparameters.loss_function {
            LossFunction::MSE => {
                y_rows == o0 && y_cols == o1 && Pool::groups_fit(o0 * o1) && Pool::groups_fit(x_rows)
            },
            LossFunction::CrossEntropyLoss => Pool::groups_fit(y_rows * y_cols),
        };
        proof {
            if self.hyperparameters.loss_function == LossFunction::MSE && y_rows == o0 && y_cols == o1 {
                assert(seq![y_rows, y_cols] =~= out_shape(self, seq![x_rows, x_cols]));
            }
            if self.hyperparameters.loss_function == LossFunction::MSE && seq![y_rows, y_cols] == out_shape(self, seq![x_rows, x_cols]) {
                assert(seq![y_rows, y_cols][0] == o0 && seq![y_rows, y_cols][1] == o1);
            }
        }
        if !loss_fits {
            return false;
        }
        self.optimizer_can_step()
    }

    /// Whether the optimizer can take a step on every parameter.
    pub fn optimizer_can_step(&self) -> (b: bool)
        requires
            self.wf(),
        ensures
            b == can_step(self.optimizer_data@, self.pool.param_end as nat),
    {
        match &self.optimizer_data {
            OptimizerData::SGD(_) => true,
            OptimizerData::Adam(os) => {
                let k = self.pool.param_end;
                if os.len() < k {
                    return false;
                }
                let mut i: usize = 0;
                while i < k
                    invariant
                        k == self.pool.param_end,
                        os@.len() >= k,
                        self.optimizer_data@ == OptView::Adam(os@),
                        i <= k,
                        forall|q: int| 0 <= q < i ==> #[trigger] os@[q].t < i32::MAX,
                    decreases k - i,
                {
                    if os[i].t == i32::MAX {
                        return false;
                    }
                    i = i + 1;
                }
                true
            },
        }
    }
}

} // verus!
