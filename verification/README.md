# microflow

A TinyML inference engine for embedded systems, verified with Verus.

The library runs quantized (`i8`/`u8`) convolutional layers as *streaming operators*: each
operator takes its input one pixel at a time, in raster order, keeps the latest pixels in a
ring buffer, and emits each output pixel as soon as its window is complete. A pipeline runs
an operator over a whole tensor, draining it with further pushes until its last outputs are
out; the compiled model runs consecutive streaming operators as such stages, one after the
other. Operators also chain, which computes the two layers in sequence when the second one
needs no drain of its own.

## Layout

- `src/` — the verified library.
  - `quantize.rs`, `activation.rs`, `tensor.rs`, `ops_options/` — quantized elements, fused
    activations, tensors and operator options.
  - `streaming_ops/window.rs` — the sliding window shared by the windowed operators: its
    ring buffer, what each filter tap sees, and when each output is due.
  - `streaming_ops/{max_pool_2d,average_pool_2d,conv_2d,global_average_pool_2d}.rs` — the
    streaming operators, each with a whole-tensor reference and proofs that streaming gives
    the reference result.
  - `streaming_ops/schedule.rs` — when a run of the window emits its outputs.
  - `streaming_ops/stream_op.rs`, `stream_pipeline.rs` — the operator interface, chaining,
    and the run of a pipeline over a tensor.
  - `ops/` — whole-tensor operators (MaxPool2D, GlobalAveragePool2D).
  - `compiler/` — the decisions of the model compiler: which operators stream, the order of
    a model's layers and pipeline flushes, and the shapes that the runtime takes.
- `app/` — the unverified edge: floating-point requantization and constants, the Logistic
  operator, conversions from nalgebra buffers, and the code that the compiler emits for a
  model (its layers, streaming nodes and pipelines).
- `tests/` — tests of the library on concrete values.

Requantization from an integer accumulator to an output value is done in floating point, so
the operators take it as a closure; their contracts state the output in terms of what that
closure returns.
