//! TensorFlow Lite operator and tensor type codes, and how the compiler classifies them.
use vstd::prelude::*;

verus! {

/// A TensorFlow Lite builtin operator code.
#[derive(Clone, Copy, PartialEq, Eq, Structural, Debug)]
pub struct BuiltinOperator(pub i32);

/// Code of `AVERAGE_POOL_2D`.
pub const AVERAGE_POOL_2D: i32 = 1;
/// Code of `CONV_2D`.
pub const CONV_2D: i32 = 3;
/// Code of `DEPTHWISE_CONV_2D`.
pub const DEPTHWISE_CONV_2D: i32 = 4;
/// Code of `FULLY_CONNECTED`.
pub const FULLY_CONNECTED: i32 = 9;
/// Code of `MAX_POOL_2D`.
pub const MAX_POOL_2D: i32 = 17;
/// Code of `RESHAPE`.
pub const RESHAPE: i32 = 22;
/// Code of `SOFTMAX`.
pub const SOFTMAX: i32 = 25;
/// Code of `TRANSPOSE`.
pub const TRANSPOSE: i32 = 39;
/// Code of `MEAN`.
pub const MEAN: i32 = 40;

/// The operators that the compiler routes to the streaming pipeline.
pub open spec fn spec_is_streaming_operator(opcode: BuiltinOperator) -> bool {
    opcode.0 == CONV_2D || opcode.0 == AVERAGE_POOL_2D || opcode.0 == MAX_POOL_2D
        || opcode.0 == MEAN
}

/// Returns true when the operator should be compiled through the streaming pipeline.
pub fn is_streaming_operator(opcode: BuiltinOperator) -> (r: bool)
    ensures
        r == spec_is_streaming_operator(opcode),
{
    opcode.0 == CONV_2D || opcode.0 == AVERAGE_POOL_2D || opcode.0 == MAX_POOL_2D
        || opcode.0 == MEAN
}

/// The operators that the compiler can emit as a standalone layer.
pub open spec fn spec_is_supported_layer(opcode: BuiltinOperator) -> bool {
    opcode.0 == FULLY_CONNECTED || opcode.0 == DEPTHWISE_CONV_2D || opcode.0 == CONV_2D
        || opcode.0 == AVERAGE_POOL_2D || opcode.0 == MEAN || opcode.0 == SOFTMAX
        || opcode.0 == RESHAPE || opcode.0 == TRANSPOSE
}

/// Returns true when the compiler can emit the operator as a standalone layer.
pub fn is_supported_layer(opcode: BuiltinOperator) -> (r: bool)
    ensures
        r == spec_is_supported_layer(opcode),
{
    opcode.0 == FULLY_CONNECTED || opcode.0 == DEPTHWISE_CONV_2D || opcode.0 == CONV_2D
        || opcode.0 == AVERAGE_POOL_2D || opcode.0 == MEAN || opcode.0 == SOFTMAX
        || opcode.0 == RESHAPE || opcode.0 == TRANSPOSE
}

/// A TensorFlow Lite tensor element type code.
#[derive(Clone, Copy, PartialEq, Eq, Structural, Debug)]
pub struct TensorType(pub i8);

/// Code of `UINT8`.
pub const UINT8: i8 = 3;
/// Code of `INT8`.
pub const INT8: i8 = 9;

/// The quantized element types that the engine runs on.
#[derive(Clone, Copy, PartialEq, Eq, Structural, Debug)]
pub enum QuantType {
    I8,
    U8,
}

/// The quantized element type of a tensor type: `INT8` and `UINT8` are supported, every
/// other type is not.
pub open spec fn spec_quant_type(tensor_type: TensorType) -> Option<QuantType> {
    if tensor_type.0 == INT8 {
        Some(QuantType::I8)
    } else if tensor_type.0 == UINT8 {
        Some(QuantType::U8)
    } else {
        None
    }
}

/// Maps a tensor type to the quantized element type that an operator is compiled for.
pub fn quant_type(tensor_type: TensorType) -> (q: Option<QuantType>)
    ensures
        q == spec_quant_type(tensor_type),
{
    if tensor_type.0 == INT8 {
        Some(QuantType::I8)
    } else if tensor_type.0 == UINT8 {
        Some(QuantType::U8)
    } else {
        None
    }
}

} // verus!
