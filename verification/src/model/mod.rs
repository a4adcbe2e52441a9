pub mod value;
pub mod neuron;
pub mod layer;
pub mod loss;
pub mod mlp;
