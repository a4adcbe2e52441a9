//! The device plans of the engine's examples: the values themselves are
//! computed by the device kernels, so these check the work that is planned
//! for the same inputs.

use homemade_ml::engine::optimizer::Optimizer;
use homemade_ml::engine::pool::{Pool, Tensor};
use homemade_ml::engine::tensor::Op;
use homemade_ml::gpu::gpu::{BufferId, Fill, GpuCommand, Groups, Kernel, Params};
use homemade_ml::hyperparameters::{MlpHyperparameters, TrainingMode};
use homemade_ml::models::mlp::MLP;
use homemade_ml::primitives::activation::Activation;
use homemade_ml::primitives::loss::LossFunction;

/// Whether some planned command creates or writes buffer `b`.
fn written(cmds: &[GpuCommand], b: BufferId) -> bool {
    cmds.iter().any(|c| match c {
        GpuCommand::Create { buffer, .. } => *buffer == b,
        GpuCommand::Dispatch { outputs, .. } => outputs.contains(&b),
        GpuCommand::Copy { destination, .. } => *destination == b,
        _ => false,
    })
}

/// Whether some planned command releases buffer `b`.
fn released(cmds: &[GpuCommand], b: BufferId) -> bool {
    cmds.iter().any(|c| *c == GpuCommand::Release { buffer: b })
}

/// Backpropagates from `root` and checks that each of `inputs` ends with a
/// fresh gradient buffer that the plan writes, its old one given back.
fn backprop_reaches(pool: &mut Pool, root: Tensor, inputs: &[Tensor]) -> Vec<GpuCommand> {
    pool.gpu.take_commands();
    let before: Vec<BufferId> = inputs.iter().map(|t| pool.nodes[t.0].grad).collect();
    let data: Vec<BufferId> = inputs.iter().map(|t| pool.nodes[t.0].data).collect();
    assert!(pool.fits_backprop(root));
    pool.backpropogate(root);
    let cmds = pool.gpu.take_commands();
    for (k, t) in inputs.iter().enumerate() {
        let grad = pool.nodes[t.0].grad;
        assert_ne!(grad, before[k]);
        assert!(written(&cmds, grad));
        assert!(released(&cmds, before[k]));
        assert_eq!(pool.nodes[t.0].data, data[k]);
        assert!(!written(&cmds, data[k]));
    }
    cmds
}

fn dispatches(cmds: &[GpuCommand], kernel: Kernel) -> Vec<Params> {
    cmds.iter()
        .filter_map(|c| match c {
            GpuCommand::Dispatch { kernel: k, params, .. } if *k == kernel => Some(*params),
            _ => None,
        })
        .collect()
}

#[test]
fn mul_backward() {
    let mut pool = Pool::new();
    let a = pool.new_tensor(2, vec![2]);
    let b = pool.new_tensor(2, vec![2]);
    let out = pool.mul(a, b);
    let cmds = backprop_reaches(&mut pool, out, &[a, b]);
    let adds = dispatches(&cmds, Kernel::Binary).iter().filter(|p| p.1 == 0).count();
    assert_eq!(adds, 2);
}

#[test]
fn tanh_backward() {
    let mut pool = Pool::new();
    let input = pool.new_tensor(2, vec![2]);
    let out = pool.tanh(input);
    assert_eq!(pool.nodes[out.0].op, Op::Tanh);
    backprop_reaches(&mut pool, out, &[input]);
}

#[test]
fn chain_mul_tanh_backward() {
    let mut pool = Pool::new();
    let a = pool.new_tensor(2, vec![2]);
    let b = pool.new_tensor(2, vec![2]);
    let product = pool.mul(a, b);
    let out = pool.tanh(product);
    backprop_reaches(&mut pool, out, &[a, b, product]);
}

#[test]
fn shared_parent_accumulates_gradients() {
    let mut pool = Pool::new();
    let input = pool.new_tensor(2, vec![2]);
    let squared = pool.mul(input, input);
    assert_eq!(pool.nodes[squared.0].parents, vec![input.0, input.0]);
    let cmds = backprop_reaches(&mut pool, squared, &[input]);
    let adds = dispatches(&cmds, Kernel::Binary).iter().filter(|p| p.1 == 0).count();
    assert_eq!(adds, 2);
}

#[test]
fn matmul_backward() {
    let mut pool = Pool::new();
    let a = pool.new_tensor(4, vec![2, 2]);
    let b = pool.new_tensor(4, vec![2, 2]);
    let out = pool.matmul(a, b);
    let cmds = backprop_reaches(&mut pool, out, &[a, b]);
    assert!(dispatches(&cmds, Kernel::Matmul).len() >= 2);
}

#[test]
fn bias_add_backward() {
    let mut pool = Pool::new();
    let input = pool.new_tensor(4, vec![2, 2]);
    let bias = pool.new_tensor(2, vec![2]);
    let out = pool.bias_add(input, bias);
    assert_eq!(pool.get_shape(out), &[2, 2]);
    backprop_reaches(&mut pool, out, &[input, bias]);
}

#[test]
fn cross_entropy_backward() {
    let mut pool = Pool::new();
    let predictions = pool.new_tensor(6, vec![2, 3]);
    let labels = pool.new_tensor(2, vec![2]);
    let loss = LossFunction::CrossEntropyLoss.apply(&mut pool, predictions, labels);
    assert_eq!(pool.get_shape(loss), &[1]);
    assert!(pool.nodes[..].iter().any(|n| n.op == Op::Gather));
    backprop_reaches(&mut pool, loss, &[predictions, labels]);
}

#[test]
fn softmax_rows_sum_to_one_and_backward_is_zero_for_total() {
    let mut pool = Pool::new();
    let logits = pool.new_tensor(6, vec![2, 3]);
    let probabilities = Activation::Softmax.apply(&mut pool, logits);
    assert_eq!(pool.get_shape(probabilities), &[2, 3]);
    let row_sums = pool.sum(probabilities);
    assert_eq!(pool.get_shape(row_sums), &[2]);
    let total = pool.mean(row_sums);
    assert_eq!(pool.get_shape(total), &[1]);
    backprop_reaches(&mut pool, total, &[logits]);
}

#[test]
fn softmax_cross_entropy_logits_gradient_matches_analytical_result() {
    let mut pool = Pool::new();
    let logits = pool.new_tensor(6, vec![2, 3]);
    let probabilities = Activation::Softmax.apply(&mut pool, logits);
    let labels = pool.new_tensor(2, vec![2]);
    let loss = LossFunction::CrossEntropyLoss.apply(&mut pool, probabilities, labels);
    backprop_reaches(&mut pool, loss, &[logits, probabilities]);
}

#[test]
fn relu_backward() {
    let mut pool = Pool::new();
    let input = pool.new_tensor(3, vec![1, 3]);
    let out = Activation::Relu.apply(&mut pool, input);
    assert_eq!(pool.nodes[out.0].op, Op::Max);
    assert_eq!(pool.get_shape(out), &[1, 3]);
    backprop_reaches(&mut pool, out, &[input]);
}

#[test]
fn mlp_eval_runs_after_pool_rename() {
    let hyperparameters = MlpHyperparameters {
        lr_bits: 0.05_f32.to_bits(),
        training_mode: TrainingMode::Batch { batch_size: 32, epochs: 10 },
        dropout_rate_bits: 0,
        n_inputs: 3,
        n_layers: vec![4, 2],
        hidden_activation: Activation::Tanh,
        output_activation: Activation::Softmax,
        loss_function: LossFunction::CrossEntropyLoss,
        optimizer: Optimizer::SGD,
    };
    let mut mlp = MLP::new(hyperparameters);
    let params = mlp.pool.nodes.len();

    let (first, first_len) = mlp.eval(3);
    let (second, second_len) = mlp.eval(3);

    assert_eq!(first_len, 2);
    assert_eq!(second_len, 2);
    assert_ne!(first, second);
    assert_eq!(mlp.pool.nodes.len(), params);
    let cmds = mlp.pool.gpu.take_commands();
    assert_eq!(cmds.iter().filter(|c| matches!(c, GpuCommand::Create { len: 3, fill: Fill::Host, .. })).count(), 2);
    assert!(written(&cmds, first));
    assert!(written(&cmds, second));
}

#[test]
fn matmul_multiplies_square_matrices() {
    let mut pool = Pool::new();
    let a = pool.upload(4, vec![2, 2]);
    let b = pool.upload(4, vec![2, 2]);
    pool.gpu.take_commands();
    let result = pool.matmul(a, b);
    assert_eq!(pool.get_shape(result), &[2, 2]);
    let cmds = pool.gpu.take_commands();
    assert_eq!(dispatches(&cmds, Kernel::Matmul), vec![Params(2, 2, 2, 0)]);
    assert!(written(&cmds, pool.nodes[result.0].data));
}

#[test]
fn matmul_multiplies_rectangular_matrices() {
    let mut pool = Pool::new();
    let a = pool.upload(6, vec![2, 3]);
    let b = pool.upload(6, vec![3, 2]);
    pool.gpu.take_commands();
    let result = pool.matmul(a, b);
    assert_eq!(pool.get_shape(result), &[2, 2]);
    let cmds = pool.gpu.take_commands();
    assert_eq!(dispatches(&cmds, Kernel::Matmul), vec![Params(2, 3, 2, 0)]);
    assert!(cmds.iter().any(|c| matches!(c, GpuCommand::Dispatch { kernel: Kernel::Matmul, groups: Groups(1, 1, 1), .. })));
}

#[test]
fn matmul_with_identity_returns_original_matrix() {
    let mut pool = Pool::new();
    let matrix = pool.upload(6, vec![3, 2]);
    let identity = pool.upload(4, vec![2, 2]);
    pool.gpu.take_commands();
    let result = pool.matmul(matrix, identity);
    assert_eq!(pool.get_shape(result), &[3, 2]);
    let cmds = pool.gpu.take_commands();
    assert_eq!(dispatches(&cmds, Kernel::Matmul), vec![Params(3, 2, 2, 0)]);
    assert_eq!(pool.nodes[result.0].parents, vec![matrix.0, identity.0]);
}
