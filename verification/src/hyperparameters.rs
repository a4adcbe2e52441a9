use vstd::prelude::*;
use crate::engine::optimizer::Optimizer;
use crate::primitives::activation::Activation;
use crate::primitives::loss::LossFunction;

verus! {

/// How a model goes through its training data.
#[derive(Clone, Copy, PartialEq, Eq, Structural, Debug)]
pub enum TrainingMode {
    /// The whole data set at every step, until the loss falls below the
    /// 32-bit float with bit pattern `loss_threshold_bits`.
    Full { loss_threshold_bits: u32 },
    /// Shuffled batches of `batch_size` rows, for `epochs` passes.
    Batch { batch_size: usize, epochs: usize },
    /// One step on the data as given.
    OnePass,
}

/// The shape and training settings of a multilayer perceptron. The learning
/// rate and the dropout rate are held as 32-bit float bit patterns, the form
/// in which the device kernels receive them.
pub struct MlpHyperparameters {
    pub lr_bits: u32,
    pub training_mode: TrainingMode,
    pub dropout_rate_bits: u32,
    pub n_inputs: usize,
    pub n_layers: Vec<usize>,
    pub hidden_activation: Activation,
    pub output_activation: Activation,
    pub loss_function: LossFunction,
    pub optimizer: Optimizer,
}

} // verus!
