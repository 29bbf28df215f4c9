//! Quantized tensors and the padding of tensor views.
use vstd::prelude::*;

use crate::quantize::Quantized;

verus! {

/// How a filter window treats the border of its input.
#[derive(Clone, Copy, Debug, PartialEq, Eq, Structural)]
pub enum TensorViewPadding {
    /// The window is centred and may reach past the border.
    Same,
    /// The window stays inside the input.
    Valid,
}

/// A quantized 4-dimensional tensor `[batches, rows, cols, chans]`.
///
/// `buffer[b][r * cols + c]` holds the channels of the pixel at row `r` and column `c` of
/// batch `b`. `zero_point` holds one zero point per quantization (one, or one per batch).
pub struct Tensor4D<T> {
    pub batches: usize,
    pub rows: usize,
    pub cols: usize,
    pub chans: usize,
    pub buffer: Vec<Vec<Vec<T>>>,
    pub zero_point: Vec<T>,
}

impl<T: Quantized> Tensor4D<T> {
    /// The tensor's shape matches its buffer, and it has at least one zero point.
    pub open spec fn wf(&self) -> bool {
        &&& self.buffer@.len() == self.batches
        &&& self.rows * self.cols <= usize::MAX
        &&& forall|b: int|
            0 <= b < self.batches ==> (#[trigger] self.buffer@[b])@.len() == self.rows * self.cols
        &&& forall|b: int, p: int|
            0 <= b < self.batches && 0 <= p < self.rows * self.cols ==> (
            #[trigger] self.buffer@[b]@[p])@.len() == self.chans
        &&& self.zero_point@.len() >= 1
    }

    /// The channels of pixel `p` (in raster order) of batch `b`.
    pub open spec fn pixel(&self, b: int, p: int) -> Seq<T> {
        self.buffer@[b]@[p]@
    }
}

} // verus!
