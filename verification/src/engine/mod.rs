pub mod tensor;
pub mod pool;
pub mod pool_ops;
pub mod optimizer;
pub mod results;
pub mod value;
pub mod activation;
pub mod fresh;
