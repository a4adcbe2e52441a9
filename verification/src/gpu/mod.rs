pub mod gpu;
