use homemade_ml::engine::pool::{Pool, Tensor};
use homemade_ml::engine::tensor::Op;
use homemade_ml::engine::optimizer::{OptimizerData, SGD};
use homemade_ml::gpu::gpu::{BufferId, Fill, Gpu, GpuCommand, Groups, Kernel, Params};
use homemade_ml::primitives::activation::Activation;
use homemade_ml::primitives::loss::{LossFunction, PROB_FLOOR_BITS};

fn creates(cmds: &[GpuCommand]) -> usize {
    cmds.iter().filter(|c| matches!(c, GpuCommand::Create { .. })).count()
}

#[test]
fn a_new_pool_creates_the_constant_one() {
    let mut pool = Pool::new();
    let cmds = pool.gpu.take_commands();
    assert_eq!(cmds, vec![GpuCommand::Create { buffer: BufferId(0), len: 1, fill: Fill::Count(1) }]);
    assert!(pool.gpu.take_commands().is_empty());
}

#[test]
fn workgroups_cover_the_elements() {
    assert_eq!(Pool::groups_1d(1), Groups(1, 1, 1));
    assert_eq!(Pool::groups_1d(256), Groups(1, 1, 1));
    assert_eq!(Pool::groups_1d(257), Groups(2, 1, 1));
    assert_eq!(Pool::groups_1d(1000), Groups(4, 1, 1));
    assert_eq!(Pool::groups_1d(256 * 65536), Groups(65535, 2, 1));
    assert!(Pool::groups_fit(1_000_000));
}

#[test]
fn uploads_and_matmul_plan() {
    let mut pool = Pool::new();
    pool.gpu.take_commands();
    let a = pool.upload(4, vec![2, 2]);
    let b = pool.upload(4, vec![2, 2]);
    let c = pool.matmul(a, b);
    assert_eq!((a, b, c), (Tensor(0), Tensor(1), Tensor(2)));
    assert_eq!(pool.get_shape(c), &[2, 2]);
    let cmds = pool.gpu.take_commands();
    assert_eq!(cmds[0], GpuCommand::Create { buffer: BufferId(1), len: 4, fill: Fill::Host });
    assert_eq!(cmds[1], GpuCommand::Create { buffer: BufferId(2), len: 4, fill: Fill::Uninit });
    assert_eq!(cmds[4], GpuCommand::Create { buffer: BufferId(5), len: 4, fill: Fill::Uninit });
    assert_eq!(
        cmds[5],
        GpuCommand::Dispatch {
            kernel: Kernel::Matmul,
            inputs: vec![BufferId(1), BufferId(3)],
            outputs: vec![BufferId(5)],
            params: Params(2, 2, 2, 0),
            groups: Groups(1, 1, 1),
        }
    );
    assert_eq!(cmds.len(), 7);
}

#[test]
fn vector_matmul_reshapes_into_a_row() {
    let mut pool = Pool::new();
    let a = pool.upload(3, vec![3]);
    let w = pool.upload(6, vec![3, 2]);
    let c = pool.matmul(a, w);
    assert_eq!(c, Tensor(3));
    assert_eq!(pool.nodes[2].op, Op::Reshape);
    assert_eq!(pool.get_shape(Tensor(2)), &[1, 3]);
    assert_eq!(pool.get_shape(c), &[1, 2]);
}

#[test]
fn elementwise_plans_name_their_kernel_code() {
    let mut pool = Pool::new();
    let a = pool.upload(2, vec![2]);
    let b = pool.upload(2, vec![2]);
    pool.gpu.take_commands();
    let m = pool.mul(a, b);
    let cmds = pool.gpu.take_commands();
    assert_eq!(
        cmds[1],
        GpuCommand::Dispatch {
            kernel: Kernel::Binary,
            inputs: vec![BufferId(1), BufferId(3)],
            outputs: vec![BufferId(5)],
            params: Params(2, 1, 0, 0),
            groups: Groups(1, 1, 1),
        }
    );
    let t = pool.tanh(m);
    let cmds = pool.gpu.take_commands();
    assert!(matches!(cmds[1], GpuCommand::Dispatch { kernel: Kernel::Unary, params: Params(2, 0, 0, 0), .. }));
    assert_eq!(pool.nodes[t.0].parents, vec![m.0]);
}

#[test]
fn mul_backward_plan_feeds_both_parents() {
    let mut pool = Pool::new();
    let a = pool.upload(2, vec![2]);
    let b = pool.upload(2, vec![2]);
    let out = pool.mul(a, b);
    pool.gpu.take_commands();
    let grad_a = pool.nodes[a.0].grad;
    let grad_b = pool.nodes[b.0].grad;
    assert!(pool.fits_backprop(out));
    pool.backpropogate(out);
    let cmds = pool.gpu.take_commands();
    assert_eq!(cmds[0], GpuCommand::Clear { buffer: grad_a });
    assert_eq!(cmds[1], GpuCommand::Clear { buffer: grad_b });
    assert!(matches!(cmds[3], GpuCommand::Dispatch { kernel: Kernel::Unary, params: Params(2, 10, 0, 0), .. }));
    assert_ne!(pool.nodes[a.0].grad, grad_a);
    assert_ne!(pool.nodes[b.0].grad, grad_b);
    assert!(cmds.iter().any(|c| *c == GpuCommand::Release { buffer: grad_a }));
    assert!(cmds.iter().any(|c| *c == GpuCommand::Release { buffer: grad_b }));
    assert_eq!(pool.nodes[a.0].data, BufferId(1));
}

#[test]
fn flush_gives_back_everything_after_the_parameters() {
    let mut pool = Pool::new();
    let w = pool.new_rand(vec![2, 2]);
    pool.set_param_end();
    let x = pool.upload(2, vec![1, 2]);
    let y = pool.matmul(x, w);
    pool.gpu.take_commands();
    let released: Vec<BufferId> = vec![
        pool.nodes[x.0].data, pool.nodes[x.0].grad, pool.nodes[y.0].data, pool.nodes[y.0].grad,
    ];
    pool.flush();
    assert_eq!(pool.nodes.len(), 1);
    let cmds = pool.gpu.take_commands();
    assert_eq!(cmds.len(), 4);
    for (c, b) in cmds.iter().zip(released) {
        assert_eq!(*c, GpuCommand::Release { buffer: b });
    }
}

#[test]
fn sgd_replaces_each_parameter_data_buffer() {
    let mut pool = Pool::new();
    let w = pool.new_rand(vec![3]);
    pool.set_param_end();
    pool.gpu.take_commands();
    let old = pool.nodes[w.0].data;
    let mut opt = OptimizerData::SGD(SGD::new(0x3C23D70A));
    pool.update_weights(&mut opt);
    let cmds = pool.gpu.take_commands();
    assert!(matches!(cmds[1], GpuCommand::Dispatch { kernel: Kernel::Update, params: Params(3, 0x3C23D70A, 0, 0), .. }));
    assert_eq!(cmds.last().unwrap(), &GpuCommand::Release { buffer: old });
    assert_ne!(pool.nodes[w.0].data, old);
}

#[test]
fn activations_add_their_nodes() {
    let mut pool = Pool::new();
    let z = pool.upload(6, vec![2, 3]);
    let r = Activation::Relu.apply(&mut pool, z);
    assert_eq!(r, Tensor(2));
    assert_eq!(pool.nodes[1].op, Op::Leaf);
    assert_eq!(pool.nodes[2].op, Op::Max);
    let s = Activation::Softmax.apply(&mut pool, z);
    assert_eq!(s, Tensor(6));
    assert_eq!(pool.nodes[3].op, Op::SubRowMax);
    assert_eq!(pool.nodes[4].op, Op::Exp);
    assert_eq!(pool.nodes[5].op, Op::Sum);
    assert_eq!(pool.nodes[6].op, Op::Div);
    let n = Activation::NoActivation.apply(&mut pool, z);
    assert_eq!(n, z);
    assert_eq!(pool.nodes.len(), 7);
}

#[test]
fn losses_build_their_graphs() {
    let mut pool = Pool::new();
    let y = pool.upload(4, vec![2, 2]);
    let t = pool.upload(4, vec![2, 2]);
    pool.gpu.take_commands();
    let l = LossFunction::MSE.apply(&mut pool, y, t);
    assert_eq!(l, Tensor(5));
    assert_eq!(pool.get_shape(l), &[1]);
    let labels = pool.upload(2, vec![2]);
    pool.gpu.take_commands();
    let c = LossFunction::CrossEntropyLoss.apply(&mut pool, y, labels);
    assert_eq!(c, Tensor(12));
    let cmds = pool.gpu.take_commands();
    assert!(cmds.iter().any(|x| matches!(x, GpuCommand::Create { fill: Fill::Repeat(b), .. } if *b == PROB_FLOOR_BITS)));
    assert_eq!(pool.nodes[c.0].op, Op::Neg);
    assert_eq!(creates(&cmds) >= 6, true);
}

#[test]
fn dropout_keeps_its_mask() {
    let mut pool = Pool::new();
    let a = pool.upload(8, vec![2, 4]);
    let d = pool.dropout_seeded(a, 0x3E800000, 7);
    assert_eq!(pool.nodes[d.0].saved.len(), 1);
    let cmds = pool.gpu.take_commands();
    assert!(cmds.iter().any(|c| matches!(c, GpuCommand::Dispatch { kernel: Kernel::Dropout, params: Params(8, 0x3E800000, 7, 0), .. })));
}

#[test]
fn the_handle_counter_stops_at_the_top() {
    let mut gpu = Gpu::new();
    assert_eq!(gpu.empty_buffer(1), BufferId(1));
    assert_eq!(gpu.next_buffer, 2);
    gpu.next_buffer = usize::MAX - 1;
    assert_eq!(gpu.empty_buffer(1), BufferId(usize::MAX - 1));
    assert_eq!(gpu.next_buffer, usize::MAX);
    assert_eq!(gpu.empty_buffer(1), BufferId(usize::MAX));
    assert_eq!(gpu.next_buffer, usize::MAX);
}

#[test]
fn backward_steps_write_only_fresh_buffers() {
    let mut pool = Pool::new();
    let a = pool.upload(4, vec![2, 2]);
    let b = pool.upload(4, vec![2, 2]);
    let c = pool.matmul(a, b);
    let d = pool.tanh(c);
    pool.gpu.take_commands();
    let first_fresh = pool.gpu.next_buffer;
    let before: Vec<BufferId> = pool.nodes.iter().flat_map(|n| vec![n.data, n.grad]).collect();
    let grads = pool.backward_for(d.0);
    assert_eq!(grads.len(), 1);
    let cmds = pool.gpu.take_commands();
    for cmd in &cmds {
        let written: Vec<BufferId> = match cmd {
            GpuCommand::Create { buffer, .. } | GpuCommand::Clear { buffer } => vec![*buffer],
            GpuCommand::Dispatch { outputs, .. } => outputs.clone(),
            GpuCommand::Copy { destination, .. } => vec![*destination],
            GpuCommand::Release { .. } => vec![],
        };
        for w in written {
            assert!(w.0 >= first_fresh);
            assert!(!before.contains(&w));
        }
    }
}
