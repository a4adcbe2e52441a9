//! A small machine-learning toolkit: a GPU tensor engine that is driven
//! through a verified command planner, scalar autograd tapes, replay memory,
//! the rules and controls of the snake trainer, and graph tracing and layout.

pub mod gpu;
mod rng;
pub mod engine;
pub mod model;
pub mod primitives;
pub mod hyperparameters;
pub mod models;
pub mod utils;
pub mod tui;
pub mod env;
pub mod state;
pub mod draw_dot;
