pub mod activation;
pub mod loss;
