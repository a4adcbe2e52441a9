pub mod mlp;
pub mod train;
pub mod dqn;
