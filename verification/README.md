# homemade_ml

A small machine-learning toolkit: a tensor autograd engine whose arithmetic
runs in GPU compute shaders, multilayer perceptrons trained with SGD or Adam,
a scalar autograd engine, a deep-Q-learning agent for a snake game, and a
renderer for expression graphs.

The library under `src/` is verified with Verus. It holds the logic: the
computation graphs and the device command plans they produce (buffers,
kernels, workgroups, releases), backpropagation order, training steps and
batching, the replay memory, the snake game's bookkeeping and controls, and
the graph layout (Kahn ranks, columns, settling). Every public function states
its result exactly in its contract; the laws of the library are public proof
functions.

`app/` holds what runs around it: the `wgpu` device that executes the command
plans, the floating-point game geometry and scalar evaluation, the terminal
views (`ratatui`, `crossterm`), the plots (`plotters`) and the data files.

Layout of `src/`:

- `gpu/` — the command planner: buffer handles, kernels, dispatches.
- `engine/` — tensors, the tensor pool and its operations, optimizers,
  activations and losses over the pool, and the scalar value pool.
- `model/` — the scalar neuron, layer and loss.
- `models/` — the multilayer perceptron, its training, and the DQN controls.
- `primitives/`, `hyperparameters.rs` — activations, losses, settings.
- `env/`, `state/` — the replay memories and the snake game's rules.
- `tui/` — terminal geometry and key handling.
- `draw_dot/` — graph tracing and layout.
- `utils/` — id counter and data paths.
