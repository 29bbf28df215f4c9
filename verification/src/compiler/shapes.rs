//! The shape decisions of the compiler.
use vstd::prelude::*;

verus! {

/// A tensor rank that the engine does not support.
#[derive(Clone, Copy, PartialEq, Eq, Structural, Debug)]
pub struct UnsupportedRank {
    pub rank: usize,
}

/// The tensor types of the engine, by rank.
#[derive(Clone, Copy, PartialEq, Eq, Structural, Debug)]
pub enum TensorKind {
    /// `Tensor2D`, for rank 2.
    Tensor2D,
    /// `Tensor4D`, for rank 4.
    Tensor4D,
}

/// A model's input or output shape as the engine reads it: a rank-1 shape gains a leading 1.
pub open spec fn spec_normalize_shape(shape: Seq<usize>) -> Seq<usize> {
    if shape.len() == 1 {
        seq![1usize] + shape
    } else {
        shape
    }
}

/// Normalizes a model's input or output shape.
pub fn normalize_shape(shape: Vec<usize>) -> (r: Vec<usize>)
    ensures
        r@ == spec_normalize_shape(shape@),
{
    let ghost orig = shape@;
    let mut shape = shape;
    if shape.len() == 1 {
        shape.insert(0, 1);
        assert(shape@ =~= spec_normalize_shape(orig));
    }
    shape
}

/// The tensor type of a rank: 2 and 4 are supported.
pub open spec fn spec_tensor_kind(rank: usize) -> Result<TensorKind, UnsupportedRank> {
    if rank == 2 {
        Ok(TensorKind::Tensor2D)
    } else if rank == 4 {
        Ok(TensorKind::Tensor4D)
    } else {
        Err(UnsupportedRank { rank })
    }
}

/// The tensor type that holds a model input or output of the given rank.
pub fn tensor_kind(rank: usize) -> (k: Result<TensorKind, UnsupportedRank>)
    ensures
        k == spec_tensor_kind(rank),
{
    if rank == 2 {
        Ok(TensorKind::Tensor2D)
    } else if rank == 4 {
        Ok(TensorKind::Tensor4D)
    } else {
        Err(UnsupportedRank { rank })
    }
}

/// The `(rows, cols, chans)` that the pipeline runtime takes for a node's shape: a rank-4
/// `[batch, rows, cols, chans]` drops its batch, a rank-2 `[batch, chans]` becomes
/// `(1, 1, chans)`, and other ranks are unsupported.
pub open spec fn spec_pad_4d(shape: Seq<usize>) -> Result<(usize, usize, usize), UnsupportedRank> {
    if shape.len() == 4 {
        Ok((shape[1], shape[2], shape[3]))
    } else if shape.len() == 2 {
        Ok((1usize, 1usize, shape[1]))
    } else {
        Err(UnsupportedRank { rank: shape.len() as usize })
    }
}

/// Maps a node's shape to the 4D dimensions of the pipeline runtime.
pub fn pad_4d(shape: &[usize]) -> (dims: Result<(usize, usize, usize), UnsupportedRank>)
    ensures
        dims == spec_pad_4d(shape@),
{
    let n = shape.len();
    if n == 4 {
        Ok((shape[1], shape[2], shape[3]))
    } else if n == 2 {
        Ok((1, 1, shape[1]))
    } else {
        Err(UnsupportedRank { rank: n })
    }
}

/// An output shape of rank below 4 as a rank-4 shape: ones are inserted after the first
/// dimension.
pub open spec fn spec_pad_output_shape(shape: Seq<usize>) -> Seq<usize> {
    if shape.len() < 4 {
        seq![shape[0]] + Seq::new((4 - shape.len()) as nat, |i: int| 1usize) + shape.subrange(
            1,
            shape.len() as int,
        )
    } else {
        shape
    }
}

/// Pads an output shape to rank 4 by inserting ones after its first dimension.
pub fn pad_output_shape(shape: Vec<usize>) -> (r: Vec<usize>)
    requires
        shape@.len() >= 1,
    ensures
        r@ == spec_pad_output_shape(shape@),
{
    let ghost orig = shape@;
    let mut shape = shape;
    while shape.len() < 4
        invariant
            orig.len() >= 1,
            1 <= shape@.len() <= if orig.len() < 4 {
                4
            } else {
                orig.len()
            },
            shape@.len() >= orig.len(),
            shape@ =~= seq![orig[0]] + Seq::new((shape@.len() - orig.len()) as nat, |i: int| 1usize)
                + orig.subrange(1, orig.len() as int),
        decreases 4 - shape@.len(),
    {
        let ghost before = shape@;
        shape.insert(1, 1);
        proof {
            let k = (before.len() - orig.len()) as nat;
            assert(shape@ =~= seq![orig[0]] + Seq::new(k + 1, |i: int| 1usize) + orig.subrange(1, orig.len() as int));
        }
    }
    proof {
        if orig.len() >= 4 {
            assert(orig =~= seq![orig[0]] + Seq::new(0, |i: int| 1usize) + orig.subrange(1, orig.len() as int));
        }
    }
    shape
}

/// The ring size of a streaming MaxPool2D: `filter_rows - 1` input rows plus `filter_cols`
/// pixels, or none for an empty filter.
pub open spec fn spec_max_pool_buffer_size(filter_rows: int, filter_cols: int, input_cols: int) -> int {
    if filter_rows == 0 {
        0
    } else {
        (filter_rows - 1) * input_cols + filter_cols
    }
}

/// The number of pixels that a streaming MaxPool2D keeps in its ring.
pub fn max_pool_buffer_size(filter_rows: usize, filter_cols: usize, input_cols: usize) -> (b: usize)
    requires
        spec_max_pool_buffer_size(filter_rows as int, filter_cols as int, input_cols as int)
            <= usize::MAX,
    ensures
        b == spec_max_pool_buffer_size(filter_rows as int, filter_cols as int, input_cols as int),
{
    if filter_rows == 0 {
        0
    } else {
        proof {
            assert((filter_rows - 1) * input_cols >= 0) by (nonlinear_arith)
                requires filter_rows >= 1;
        }
        (filter_rows - 1) * input_cols + filter_cols
    }
}

} // verus!
