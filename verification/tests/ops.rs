use libm::roundf;
use microflow::activation::FusedActivation;
use microflow::ops::{global_average_pool_2d, max_pool_2d};
use microflow::ops_options::MaxPool2DOptions;
use microflow::streaming_ops::{stream_pipeline, StreamingGlobalAveragePool2D};
use microflow::tensor::{Tensor4D, TensorViewPadding};

fn input() -> Tensor4D<i8> {
    Tensor4D {
        batches: 1,
        rows: 2,
        cols: 3,
        chans: 2,
        buffer: vec![vec![
            vec![1, 2],
            vec![3, 4],
            vec![5, 6],
            vec![7, 8],
            vec![9, 10],
            vec![11, 12],
        ]],
        zero_point: vec![14],
    }
}

fn mean_requantize(constants: (f32, f32)) -> impl Fn(i32, usize) -> i8 {
    move |sum: i32, area: usize| {
        let x = sum as f32 / area as f32;
        roundf(constants.0 * x + constants.1) as i8
    }
}

#[test]
fn global_average_pool_2d_layer() {
    let output = global_average_pool_2d(
        input(),
        16,
        127,
        FusedActivation::Linear,
        mean_requantize((0.866_666_7, 3.866_666_6)),
    );
    assert_eq!((output.batches, output.rows, output.cols, output.chans), (1, 1, 1, 2));
    assert_eq!(output.buffer, vec![vec![vec![9, 10]]]);
    assert_eq!(output.zero_point, vec![16]);
}

#[test]
fn global_average_pool_streaming_matches_whole_tensor() {
    let requantize = |sum: i32, area: usize| (sum / area as i32) as i8;
    let batch = global_average_pool_2d(input(), 0, 127, FusedActivation::Relu, requantize);
    let op = StreamingGlobalAveragePool2D::new(2, 3, 2, 14, 0, 127, FusedActivation::Relu, requantize);
    let streamed = stream_pipeline(&input(), 1, 1, 2, op);
    assert_eq!(batch.buffer, streamed.buffer);
    // Channel sums 36 and 42 over 6 pixels.
    assert_eq!(batch.buffer, vec![vec![vec![6, 7]]]);
}

#[test]
fn global_average_pool_relu6_clamps() {
    let output = global_average_pool_2d(input(), 0, 6, FusedActivation::Relu6, |sum: i32, area: usize| {
        (sum / area as i32) as i8
    });
    assert_eq!(output.buffer, vec![vec![vec![6, 6]]]);
}

#[test]
fn max_pool_2d_whole_tensor() {
    let valid = MaxPool2DOptions {
        fused_activation: FusedActivation::Linear,
        view_padding: TensorViewPadding::Valid,
        strides: (1, 1),
    };
    let output = max_pool_2d(input(), 2, 2, 14, 127, valid);
    assert_eq!((output.rows, output.cols, output.chans), (1, 2, 2));
    assert_eq!(output.buffer, vec![vec![vec![9, 10], vec![11, 12]]]);
    assert_eq!(output.zero_point, vec![14]);
    // Same padding with a 3x3 window: each output is the maximum of its in-bounds
    // neighbourhood; ReLU6 with a ceiling of 11 then clamps.
    let same = MaxPool2DOptions {
        fused_activation: FusedActivation::Relu6,
        view_padding: TensorViewPadding::Same,
        strides: (1, 1),
    };
    let output = max_pool_2d(input(), 3, 3, 0, 11, same);
    assert_eq!(
        output.buffer,
        vec![vec![vec![9, 10], vec![11, 11], vec![11, 11], vec![9, 10], vec![11, 11], vec![11, 11]]]
    );
}
