//! A TinyML inference engine for embedded systems: quantized streaming operators that take
//! their input one pixel at a time, and the decisions of the model compiler that chains them.

pub mod activation;
pub mod compiler;
pub mod ops;
pub mod ops_options;
pub mod quantize;
pub mod streaming_ops;
pub mod tensor;

pub use compiler::operators::{is_streaming_operator, BuiltinOperator};
