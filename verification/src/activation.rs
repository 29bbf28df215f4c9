//! Fused activation functions on quantized values.
use vstd::prelude::*;

use crate::quantize::{max, min, spec_max, spec_min, Quantized};

verus! {

/// The activation function fused into an operator.
#[derive(Clone, Copy, Debug, PartialEq, Eq, Structural)]
pub enum FusedActivation {
    /// No activation: the value passes unchanged.
    Linear,
    Relu,
    Relu6,
}

/// ReLU in the quantized domain: values below the zero point are raised to it.
pub open spec fn spec_relu<T: Quantized>(input: T, zero_point: T) -> T {
    spec_max(input, zero_point)
}

/// ReLU6 in the quantized domain: clamps between the zero point and the quantized 6.0.
pub open spec fn spec_relu6<T: Quantized>(input: T, six: T, zero_point: T) -> T {
    spec_min(spec_max(input, zero_point), six)
}

/// The fused activation applied to one output value.
pub open spec fn spec_activate<T: Quantized>(
    activation: FusedActivation,
    y: T,
    zero_point: T,
    six: T,
) -> T {
    match activation {
        FusedActivation::Linear => y,
        FusedActivation::Relu => spec_relu(y, zero_point),
        FusedActivation::Relu6 => spec_relu6(y, six, zero_point),
    }
}

/// ReLU on a quantized value.
pub fn relu<T: Quantized>(input: T, zero_point: T) -> (r: T)
    ensures
        r == spec_relu(input, zero_point),
{
    max(input, zero_point)
}

/// ReLU6 on a quantized value, where `six` is 6.0 quantized with the output's scale and
/// zero point.
pub fn relu6<T: Quantized>(input: T, six: T, zero_point: T) -> (r: T)
    ensures
        r == spec_relu6(input, six, zero_point),
{
    min(max(input, zero_point), six)
}

/// Applies the fused activation to one output value.
pub fn activate<T: Quantized>(activation: FusedActivation, y: T, zero_point: T, six: T) -> (r: T)
    ensures
        r == spec_activate(activation, y, zero_point, six),
{
    match activation {
        FusedActivation::Linear => y,
        FusedActivation::Relu => relu(y, zero_point),
        FusedActivation::Relu6 => relu6(y, six, zero_point),
    }
}

/// ReLU never goes below the zero point, and applying it twice is applying it once.
pub proof fn lemma_relu_laws<T: Quantized>(input: T, zero_point: T)
    ensures
        spec_relu(input, zero_point).value() >= zero_point.value(),
        spec_relu(spec_relu(input, zero_point), zero_point) == spec_relu(input, zero_point),
        input.value() >= zero_point.value() ==> spec_relu(input, zero_point) == input,
{
    T::lemma_value_injective(input, zero_point);
}

/// ReLU6 stays between the zero point and the quantized 6.0 (when the zero point is not above
/// it), and leaves values in that range unchanged.
pub proof fn lemma_relu6_laws<T: Quantized>(input: T, six: T, zero_point: T)
    requires
        zero_point.value() <= six.value(),
    ensures
        zero_point.value() <= spec_relu6(input, six, zero_point).value() <= six.value(),
        zero_point.value() <= input.value() <= six.value() ==> spec_relu6(input, six, zero_point) == input,
{
    T::lemma_value_injective(input, zero_point);
}

} // verus!
