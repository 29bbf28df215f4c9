use vstd::prelude::*;

use crate::activation::FusedActivation;
use crate::tensor::TensorViewPadding;

verus! {

/// The options of the `AveragePool2D` operator.
#[derive(Clone, Copy, Debug)]
pub struct AveragePool2DOptions {
    pub fused_activation: FusedActivation,
    pub view_padding: TensorViewPadding,
    /// The strides along rows and along columns.
    pub strides: (usize, usize),
}

} // verus!
