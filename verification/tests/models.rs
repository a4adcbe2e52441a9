use homemade_ml::engine::optimizer::{Optimizer, OptimizerData};
use homemade_ml::engine::pool::Tensor;
use homemade_ml::gpu::gpu::{Fill, GpuCommand, Kernel};
use homemade_ml::hyperparameters::{MlpHyperparameters, TrainingMode};
use homemade_ml::models::mlp::MLP;
use homemade_ml::models::train::shuffled_chunks;
use homemade_ml::primitives::activation::Activation;
use homemade_ml::primitives::loss::LossFunction;

fn hp(optimizer: Optimizer, loss: LossFunction) -> MlpHyperparameters {
    MlpHyperparameters {
        lr_bits: 0x3B44_9BA6,
        training_mode: TrainingMode::OnePass,
        dropout_rate_bits: 0,
        n_inputs: 2,
        n_layers: vec![3, 1],
        hidden_activation: Activation::Relu,
        output_activation: Activation::NoActivation,
        loss_function: loss,
        optimizer,
    }
}

#[test]
fn mlp_parameters_come_first_layer_by_layer() {
    let mut m = MLP::new(hp(Optimizer::AdamOptimizer, LossFunction::MSE));
    assert_eq!(m.pool.nodes.len(), 4);
    assert_eq!(m.pool.param_end, 4);
    assert_eq!(m.parameters(), vec![Tensor(0), Tensor(1), Tensor(2), Tensor(3)]);
    assert_eq!(m.pool.get_shape(Tensor(0)), &[2, 3]);
    assert_eq!(m.pool.get_shape(Tensor(1)), &[3]);
    assert_eq!(m.pool.get_shape(Tensor(2)), &[3, 1]);
    assert_eq!(m.pool.get_shape(Tensor(3)), &[1]);
    match &m.optimizer_data {
        OptimizerData::Adam(os) => assert_eq!(os.len(), 4),
        OptimizerData::SGD(_) => panic!("expected Adam"),
    }
    let cmds = m.pool.gpu.take_commands();
    assert_eq!(cmds.len(), 1 + 8 + 8);
    assert!(matches!(cmds[1], GpuCommand::Create { len: 6, fill: Fill::Random, .. }));
    assert!(matches!(cmds[3], GpuCommand::Create { len: 3, fill: Fill::Repeat(0), .. }));
    assert!(matches!(cmds[9], GpuCommand::Create { len: 6, fill: Fill::Zeroed, .. }));
}

#[test]
fn a_training_step_leaves_only_the_parameters() {
    let mut m = MLP::new(hp(Optimizer::SGD, LossFunction::MSE));
    m.pool.gpu.take_commands();
    assert!(m.train_once(5, 2, 5, 1));
    assert_eq!(m.pool.nodes.len(), 4);
    let cmds = m.pool.gpu.take_commands();
    assert!(matches!(cmds[0], GpuCommand::Create { len: 10, fill: Fill::Host, .. }));
    assert!(matches!(cmds[2], GpuCommand::Create { len: 5, fill: Fill::Host, .. }));
    let updates = cmds.iter().filter(|c| matches!(c, GpuCommand::Dispatch { kernel: Kernel::Update, .. })).count();
    assert_eq!(updates, 4);
}

#[test]
fn evaluation_runs_one_row_and_flushes() {
    let mut settings = hp(Optimizer::SGD, LossFunction::CrossEntropyLoss);
    settings.dropout_rate_bits = 0x3E80_0000;
    let mut m = MLP::new(settings);
    let params: Vec<_> = m.pool.nodes.iter().map(|n| (n.data, n.grad)).collect();
    m.pool.gpu.take_commands();
    let (out, len) = m.eval(2);
    assert_eq!(len, 1);
    assert_eq!(m.pool.nodes.len(), 4);
    assert_eq!(m.pool.nodes.iter().map(|n| (n.data, n.grad)).collect::<Vec<_>>(), params);
    assert_eq!(m.hyperparameters.dropout_rate_bits, 0x3E80_0000);
    let cmds = m.pool.gpu.take_commands();
    assert!(matches!(cmds[0], GpuCommand::Create { len: 2, fill: Fill::Host, .. }));
    let rates: Vec<u32> = cmds
        .iter()
        .filter_map(|c| match c {
            GpuCommand::Dispatch { kernel: Kernel::Dropout, params, .. } => Some(params.1),
            _ => None,
        })
        .collect();
    assert_eq!(rates, vec![0, 0]);
    let copied = cmds.iter().position(|c| matches!(c, GpuCommand::Copy { destination, len: 1, .. } if *destination == out));
    let copied = copied.expect("the output row is copied out");
    assert!(cmds[copied + 1..].iter().all(|c| matches!(c, GpuCommand::Release { buffer } if *buffer != out)));
    assert!(cmds.len() > copied + 1);
    for cmd in &cmds {
        let written: Vec<_> = match cmd {
            GpuCommand::Create { buffer, .. } | GpuCommand::Clear { buffer } => vec![*buffer],
            GpuCommand::Dispatch { outputs, .. } => outputs.clone(),
            GpuCommand::Copy { destination, .. } => vec![*destination],
            GpuCommand::Release { .. } => vec![],
        };
        for w in written {
            assert!(params.iter().all(|&(data, grad)| w != data && w != grad));
            assert_ne!(w, m.pool.gpu.one);
        }
    }
    let (again, len_again) = m.eval(2);
    assert_eq!(len_again, 1);
    assert_ne!(again, out);
    assert_eq!(m.pool.nodes.len(), 4);
}

#[test]
fn shuffled_batches_cover_every_row_once() {
    let chunks = shuffled_chunks(10, 4);
    assert_eq!(chunks.iter().map(|c| c.len()).collect::<Vec<_>>(), vec![4, 4, 2]);
    let mut all: Vec<usize> = chunks.into_iter().flatten().collect();
    all.sort();
    assert_eq!(all, (0..10).collect::<Vec<_>>());
}

#[test]
fn shuffling_moves_rows() {
    let identity: Vec<usize> = (0..20).collect();
    let moved = (0..5).any(|_| shuffled_chunks(20, 20)[0] != identity);
    assert!(moved);
}

#[test]
fn random_numbers_pick_actions_modulo_three() {
    use_action_from();
}

fn use_action_from() {
    assert_eq!(homemade_ml::models::dqn::action_from(0), 0);
    assert_eq!(homemade_ml::models::dqn::action_from(7), 1);
    assert_eq!(homemade_ml::models::dqn::action_from(usize::MAX), usize::MAX % 3);
    for _ in 0..50 {
        assert!(homemade_ml::models::dqn::random_action() < 3);
    }
}
