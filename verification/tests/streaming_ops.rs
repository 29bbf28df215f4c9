use libm::roundf;
use microflow::activation::FusedActivation;
use microflow::ops_options::{AveragePool2DOptions, Conv2DOptions, MaxPool2DOptions};
use microflow::streaming_ops::{
    stream_pipeline, Chain, ChainExt, Identity, StreamOp, StreamingAveragePool2D, StreamingConv2D,
    StreamingGlobalAveragePool2D, StreamingMaxPool2D,
};
use microflow::tensor::{Tensor4D, TensorViewPadding};

fn tensor(rows: usize, cols: usize, pixels: &[[i8; 2]], zero_point: i8) -> Tensor4D<i8> {
    Tensor4D {
        batches: 1,
        rows,
        cols,
        chans: 2,
        buffer: vec![pixels.iter().map(|p| p.to_vec()).collect()],
        zero_point: vec![zero_point],
    }
}

fn input() -> Tensor4D<i8> {
    tensor(2, 3, &[[1, 2], [3, 4], [5, 6], [7, 8], [9, 10], [11, 12]], 14)
}

fn pixels(t: &Tensor4D<i8>) -> Vec<Vec<i8>> {
    t.buffer[0].clone()
}

fn pool_requantize(constants: (f32, f32)) -> impl Fn(i32, usize) -> i8 {
    move |sum: i32, count: usize| {
        let inv_len = 1.0 / (count as f32);
        let x = inv_len * (sum as f32);
        roundf(constants.0 * x + constants.1) as i8
    }
}

fn mean_requantize(constants: (f32, f32)) -> impl Fn(i32, usize) -> i8 {
    move |sum: i32, area: usize| {
        let x = sum as f32 / area as f32;
        roundf(constants.0 * x + constants.1) as i8
    }
}

#[test]
fn max_pool_2d_layer() {
    let input = input();
    let options = MaxPool2DOptions {
        fused_activation: FusedActivation::Linear,
        view_padding: TensorViewPadding::Valid,
        strides: (1, 1),
    };
    let op: StreamingMaxPool2D<i8> =
        StreamingMaxPool2D::new(2, 3, 2, 2, 2, 5, input.zero_point[0], 14, 127, options);
    let result = stream_pipeline(&input, 1, 2, 2, op);
    assert_eq!((result.rows, result.cols, result.chans), (1, 2, 2));
    assert_eq!(pixels(&result), vec![vec![9, 10], vec![11, 12]]);
    assert_eq!(result.zero_point, vec![14]);
}

#[test]
fn average_pool_2d_layer() {
    let input = input();
    let options = AveragePool2DOptions {
        fused_activation: FusedActivation::Linear,
        view_padding: TensorViewPadding::Same,
        strides: (1, 1),
    };
    let op = StreamingAveragePool2D::new(
        2,
        3,
        2,
        2,
        3,
        6,
        input.zero_point[0],
        16,
        127,
        options,
        pool_requantize((0.866_666_7, 3.866_666_6)),
    );
    let result = stream_pipeline(&input, 2, 3, 2, op);
    assert_eq!(
        pixels(&result),
        vec![vec![8, 9], vec![9, 10], vec![10, 11], vec![11, 12], vec![12, 13], vec![13, 13]]
    );
    assert_eq!(result.zero_point, vec![16]);
}

#[test]
fn streaming_global_average_pool_2d_layer() {
    let input = input();
    let op = StreamingGlobalAveragePool2D::new(
        2,
        3,
        2,
        input.zero_point[0],
        16,
        127,
        FusedActivation::Linear,
        mean_requantize((0.866_666_7, 3.866_666_6)),
    );
    let result = stream_pipeline(&input, 1, 1, 2, op);
    assert_eq!(pixels(&result), vec![vec![9, 10]]);
    assert_eq!(result.zero_point, vec![16]);
}

fn conv_filters() -> Tensor4D<i8> {
    Tensor4D {
        batches: 2,
        rows: 2,
        cols: 3,
        chans: 2,
        buffer: vec![
            vec![
                vec![15, 16],
                vec![17, 18],
                vec![19, 20],
                vec![21, 22],
                vec![23, 24],
                vec![25, 26],
            ],
            vec![
                vec![27, 28],
                vec![29, 30],
                vec![31, 32],
                vec![33, 34],
                vec![35, 36],
                vec![37, 38],
            ],
        ],
        zero_point: vec![41, 42],
    }
}

fn conv_requantize(output_zero_point: i8, constants: ([f32; 2], [f32; 2])) -> impl Fn(usize, i64) -> i8 {
    move |b: usize, acc: i64| {
        let c0 = constants.0[b];
        let c1 = constants.1.get(b).copied().unwrap_or(constants.1[0]);
        roundf(output_zero_point as f32 + c0 + c1 * (acc as f32)) as i8
    }
}

#[test]
fn streaming_conv2d_matches_reference() {
    let input = input();
    let options = Conv2DOptions {
        fused_activation: FusedActivation::Linear,
        view_padding: TensorViewPadding::Same,
        strides: (1, 1),
    };
    let constants = ([-3.673_469_4, -3.755_102], [0.103_469_39, 0.106_122_45]);
    let op = StreamingConv2D::new(
        2,
        3,
        input.zero_point[0],
        conv_filters(),
        50,
        127,
        options,
        conv_requantize(50, constants),
    );
    let result = stream_pipeline(&input, 2, 3, 2, op);
    let expected = vec![
        vec![127, 116],
        vec![127, 127],
        vec![127, 113],
        vec![98, 74],
        vec![114, 84],
        vec![82, 67],
    ];
    assert_eq!(pixels(&result), expected);
    assert_eq!(result.zero_point, vec![50]);
}

#[test]
fn max_pool_emits_in_raster_order_when_due() {
    let options = MaxPool2DOptions {
        fused_activation: FusedActivation::Linear,
        view_padding: TensorViewPadding::Valid,
        strides: (1, 1),
    };
    let mut op: StreamingMaxPool2D<i8> =
        StreamingMaxPool2D::new(2, 3, 2, 2, 2, 5, 14, 14, 127, options);
    let input = input();
    let mut emitted = Vec::new();
    for (cycle, p) in input.buffer[0].iter().enumerate() {
        let out = StreamingMaxPool2D::push(&mut op, p.clone());
        emitted.push((cycle, out));
    }
    // Output (0, 0) needs pixel (1, 1), the 5th; output (0, 1) needs pixel (1, 2), the 6th.
    assert_eq!(emitted[3].1, None);
    assert_eq!(emitted[4].1, Some(vec![9, 10]));
    assert_eq!(emitted[5].1, Some(vec![11, 12]));
    assert!(op.is_finished());
    assert_eq!(op.out_dims(), (1, 2));
}

#[test]
fn max_pool_small_ring_sees_zero_point_for_evicted_pixels() {
    // A ring of one pixel keeps only the newest pixel: the other taps of the window read the
    // input zero point.
    let options = MaxPool2DOptions {
        fused_activation: FusedActivation::Linear,
        view_padding: TensorViewPadding::Valid,
        strides: (1, 1),
    };
    let op: StreamingMaxPool2D<i8> = StreamingMaxPool2D::new(2, 3, 2, 2, 2, 1, -5, 0, 127, options);
    let input = tensor(2, 3, &[[-9, -9], [-9, -9], [-9, -9], [-9, -9], [-7, -8], [-6, -9]], -5);
    let result = stream_pipeline(&input, 1, 2, 2, op);
    assert_eq!(pixels(&result), vec![vec![-5, -5], vec![-5, -5]]);
}

#[test]
fn max_pool_relu_and_relu6_activations() {
    let input = tensor(2, 3, &[[1, 2], [3, 4], [5, 6], [7, 8], [9, 10], [11, 12]], 0);
    let relu = MaxPool2DOptions {
        fused_activation: FusedActivation::Relu,
        view_padding: TensorViewPadding::Valid,
        strides: (1, 1),
    };
    let op: StreamingMaxPool2D<i8> = StreamingMaxPool2D::new(2, 3, 2, 2, 2, 5, 0, 10, 127, relu);
    assert_eq!(pixels(&stream_pipeline(&input, 1, 2, 2, op)), vec![vec![10, 10], vec![11, 12]]);
    let relu6 = MaxPool2DOptions { fused_activation: FusedActivation::Relu6, ..relu };
    let op: StreamingMaxPool2D<i8> = StreamingMaxPool2D::new(2, 3, 2, 2, 2, 5, 0, 10, 11, relu6);
    assert_eq!(pixels(&stream_pipeline(&input, 1, 2, 2, op)), vec![vec![10, 10], vec![11, 11]]);
}

#[test]
fn max_pool_same_padding_drains() {
    // Same padding with a 3x3 window: every output takes the maximum of its in-bounds
    // neighbourhood; the last outputs are emitted while the pipeline drains.
    let options = MaxPool2DOptions {
        fused_activation: FusedActivation::Linear,
        view_padding: TensorViewPadding::Same,
        strides: (1, 1),
    };
    let op: StreamingMaxPool2D<i8> = StreamingMaxPool2D::new(2, 3, 2, 3, 3, 6, 0, 0, 127, options);
    let result = stream_pipeline(&input(), 2, 3, 2, op);
    assert_eq!(
        pixels(&result),
        vec![vec![9, 10], vec![11, 12], vec![11, 12], vec![9, 10], vec![11, 12], vec![11, 12]]
    );
}

#[test]
fn max_pool_strides_skip_outputs() {
    let options = MaxPool2DOptions {
        fused_activation: FusedActivation::Linear,
        view_padding: TensorViewPadding::Valid,
        strides: (1, 2),
    };
    let op: StreamingMaxPool2D<i8> = StreamingMaxPool2D::new(2, 3, 2, 1, 1, 6, 0, 0, 127, options);
    let result = stream_pipeline(&input(), 2, 2, 2, op);
    assert_eq!(pixels(&result), vec![vec![1, 2], vec![5, 6], vec![7, 8], vec![11, 12]]);
}

#[test]
fn global_average_pool_emits_once() {
    let mut op = StreamingGlobalAveragePool2D::new(
        1,
        2,
        2,
        0i8,
        0,
        127,
        FusedActivation::Linear,
        |sum: i32, area: usize| (sum / area as i32) as i8,
    );
    assert_eq!(StreamingGlobalAveragePool2D::push(&mut op, vec![2, 10]), None);
    assert_eq!(StreamingGlobalAveragePool2D::push(&mut op, vec![4, -2]), Some(vec![3, 4]));
    assert!(op.is_finished());
    assert_eq!(op.sums, vec![6, 8]);
    assert_eq!(StreamingGlobalAveragePool2D::push(&mut op, vec![100, 100]), None);
    assert_eq!(op.sums, vec![6, 8]);
}

#[test]
fn conv_accumulator_is_zero_point_corrected_dot() {
    // One 1x1 filter over one channel: the accumulator is (x - izp) * (f - fzp).
    let filters = Tensor4D { batches: 1, rows: 1, cols: 1, chans: 1, buffer: vec![vec![vec![7i8]]], zero_point: vec![2] };
    let options = Conv2DOptions {
        fused_activation: FusedActivation::Linear,
        view_padding: TensorViewPadding::Valid,
        strides: (1, 1),
    };
    let mut op = StreamingConv2D::new(1, 2, 3i8, filters, 0, 127, options, |_b: usize, acc: i64| acc as i8);
    assert_eq!(op.filter_sums, vec![7]);
    assert_eq!(StreamingConv2D::push(&mut op, vec![10]), Some(vec![35]));
    assert_eq!(StreamingConv2D::push(&mut op, vec![1]), Some(vec![-10]));
    assert!(op.is_finished());
}

#[test]
fn identity_and_chain() {
    let mut id = Identity { zero_point: 3i8, chans: 2 };
    assert_eq!(StreamOp::push(&mut id, vec![1, 2]), Some(vec![1, 2]));
    assert!(!id.is_finished());
    assert_eq!(StreamOp::output_zero_point(&id), 3);

    let options = MaxPool2DOptions {
        fused_activation: FusedActivation::Linear,
        view_padding: TensorViewPadding::Valid,
        strides: (1, 1),
    };
    let pool: StreamingMaxPool2D<i8> = StreamingMaxPool2D::new(2, 3, 2, 2, 2, 5, 14, 14, 127, options);
    let chain: Chain<Identity<i8>, StreamingMaxPool2D<i8>> = Identity { zero_point: 14, chans: 2 }.and_then(pool);
    assert_eq!(StreamOp::output_zero_point(&chain), 14);
    let result = stream_pipeline(&input(), 1, 2, 2, chain);
    assert_eq!(pixels(&result), vec![vec![9, 10], vec![11, 12]]);
}

#[test]
fn pipeline_keeps_only_what_fits() {
    let id = Identity { zero_point: 0i8, chans: 2 };
    let result = stream_pipeline(&input(), 1, 2, 2, id);
    assert_eq!(pixels(&result), vec![vec![1, 2], vec![3, 4]]);
    assert_eq!(result.zero_point, vec![0]);
}

/// Channel-wise maximum over each centred 3x3 window that lies inside the input.
fn reference_max_pool_same_3x3(rows: usize, cols: usize, pixels: &[Vec<i8>]) -> Vec<Vec<i8>> {
    let mut out = Vec::new();
    for r in 0..rows as isize {
        for c in 0..cols as isize {
            let mut best = vec![i8::MIN; pixels[0].len()];
            for dr in -1..=1 {
                for dc in -1..=1 {
                    let (rr, cc) = (r + dr, c + dc);
                    if rr >= 0 && rr < rows as isize && cc >= 0 && cc < cols as isize {
                        let p = &pixels[rr as usize * cols + cc as usize];
                        for ch in 0..best.len() {
                            best[ch] = best[ch].max(p[ch]);
                        }
                    }
                }
            }
            out.push(best);
        }
    }
    out
}

#[test]
fn max_pool_with_ring_of_one_window_span_matches_reference() {
    // A 4x4 input through a 3x3 Same max pool whose ring holds 2 rows and 3 pixels: less than
    // the input, but the span of a window.
    let values: Vec<Vec<i8>> = (0..16).map(|i| vec![((i * 37) % 23) as i8 - 11, ((i * 11) % 7) as i8]).collect();
    let input = Tensor4D { batches: 1, rows: 4, cols: 4, chans: 2, buffer: vec![values.clone()], zero_point: vec![0] };
    let options = MaxPool2DOptions {
        fused_activation: FusedActivation::Linear,
        view_padding: TensorViewPadding::Same,
        strides: (1, 1),
    };
    let op: StreamingMaxPool2D<i8> = StreamingMaxPool2D::new(4, 4, 2, 3, 3, 11, 0, 0, 127, options);
    let result = stream_pipeline(&input, 4, 4, 2, op);
    assert_eq!(pixels(&result), reference_max_pool_same_3x3(4, 4, &values));
}

#[test]
fn samplers_answer_every_position() {
    let input = input();
    let same = Conv2DOptions {
        fused_activation: FusedActivation::Linear,
        view_padding: TensorViewPadding::Same,
        strides: (1, 1),
    };
    let mut conv = StreamingConv2D::new(2, 3, 14i8, conv_filters(), 50, 127, same, |_b: usize, acc: i64| acc as i8);
    StreamingConv2D::push(&mut conv, input.buffer[0][0].clone());
    StreamingConv2D::push(&mut conv, input.buffer[0][1].clone());
    assert_eq!(conv.sample(0, 1), Some(vec![3, 4]));
    // Outside the input, or not pushed yet: the zero-point pixel under Same padding.
    assert_eq!(conv.sample(-1, 0), Some(vec![14, 14]));
    assert_eq!(conv.sample(0, 3), Some(vec![14, 14]));
    assert_eq!(conv.sample(1, 1), Some(vec![14, 14]));
    let valid = Conv2DOptions { view_padding: TensorViewPadding::Valid, ..same };
    let conv = StreamingConv2D::new(2, 3, 14i8, conv_filters(), 50, 127, valid, |_b: usize, acc: i64| acc as i8);
    assert_eq!(conv.sample(-1, 0), None);
    assert_eq!(conv.sample(1, 1), None);
    // Before the first push the ring's first slot holds the zero-point pixel it started with.
    assert_eq!(conv.sample(0, 0), Some(vec![14, 14]));

    let options = AveragePool2DOptions {
        fused_activation: FusedActivation::Linear,
        view_padding: TensorViewPadding::Same,
        strides: (1, 1),
    };
    let mut pool = StreamingAveragePool2D::new(2, 3, 2, 2, 3, 6, 14i8, 16, 127, options, pool_requantize((1.0, 0.0)));
    StreamingAveragePool2D::push(&mut pool, input.buffer[0][0].clone());
    assert_eq!(pool.sample(0, 0), Some(vec![1, 2]));
    assert_eq!(pool.sample(0, -1), None);
    assert_eq!(pool.sample(2, 0), None);
    assert_eq!(pool.sample(0, 1), None);
}

#[test]
fn finished_operator_stays_finished() {
    let options = MaxPool2DOptions {
        fused_activation: FusedActivation::Linear,
        view_padding: TensorViewPadding::Valid,
        strides: (1, 1),
    };
    let mut op: StreamingMaxPool2D<i8> = StreamingMaxPool2D::new(2, 3, 2, 2, 2, 5, 14, 14, 127, options);
    for p in input().buffer[0].iter() {
        StreamingMaxPool2D::push(&mut op, p.clone());
    }
    assert!(op.is_finished());
    for _ in 0..4 {
        assert_eq!(StreamingMaxPool2D::push(&mut op, vec![100, 100]), None);
        assert!(op.is_finished());
    }
}

#[test]
fn identity_pipeline_returns_input() {
    let input = input();
    let id = Identity { zero_point: input.zero_point[0], chans: 2 };
    let output = stream_pipeline(&input, 2, 3, 2, id);
    assert_eq!(output.buffer, input.buffer);
    assert_eq!(output.zero_point, input.zero_point);
}

#[test]
fn chaining_is_associative() {
    let options = MaxPool2DOptions {
        fused_activation: FusedActivation::Linear,
        view_padding: TensorViewPadding::Valid,
        strides: (1, 1),
    };
    let pool = || -> StreamingMaxPool2D<i8> { StreamingMaxPool2D::new(2, 3, 2, 2, 2, 5, 14, 14, 127, options) };
    let id = || Identity { zero_point: 14i8, chans: 2 };
    let left = id().and_then(id()).and_then(pool());
    let right = id().and_then(id().and_then(pool()));
    let a = stream_pipeline(&input(), 1, 2, 2, left);
    let b = stream_pipeline(&input(), 1, 2, 2, right);
    assert_eq!(a.buffer, b.buffer);
    assert_eq!(a.buffer, vec![vec![vec![9, 10], vec![11, 12]]]);
}

#[test]
fn pipeline_drains_a_filter_taller_than_the_input() {
    // A 7x1 Same window centred on the single pixel of a 1x1 input needs three pushes past the
    // input before it is complete; the pipeline drains that long.
    let input = tensor(1, 1, &[[5, -3]], 0);
    let options = MaxPool2DOptions {
        fused_activation: FusedActivation::Linear,
        view_padding: TensorViewPadding::Same,
        strides: (1, 1),
    };
    let op: StreamingMaxPool2D<i8> = StreamingMaxPool2D::new(1, 1, 2, 7, 1, 7, 0, 0, 127, options);
    let result = stream_pipeline(&input, 1, 1, 2, op);
    assert_eq!(pixels(&result), vec![vec![5, -3]]);
}

/// Channel-wise maximum over each 2x2 window at stride 1 that lies wholly inside the input.
fn reference_max_pool_valid_2x2(rows: usize, cols: usize, pixels: &[Vec<i8>]) -> Vec<Vec<i8>> {
    let mut out = Vec::new();
    for r in 0..rows - 1 {
        for c in 0..cols - 1 {
            let mut best = vec![i8::MIN; pixels[0].len()];
            for (dr, dc) in [(0, 0), (0, 1), (1, 0), (1, 1)] {
                let p = &pixels[(r + dr) * cols + c + dc];
                for ch in 0..best.len() {
                    best[ch] = best[ch].max(p[ch]);
                }
            }
            out.push(best);
        }
    }
    out
}

/// Rounded channel-wise mean over each 2x2 window at stride 1 whose top-left corner is a
/// pixel of the input, counting only the pixels inside the input (Same padding).
fn reference_average_pool_same_2x2(rows: usize, cols: usize, pixels: &[Vec<i8>]) -> Vec<Vec<i8>> {
    let mut out = Vec::new();
    for r in 0..rows {
        for c in 0..cols {
            let mut sums = vec![0i32; pixels[0].len()];
            let mut count = 0;
            for (dr, dc) in [(0, 0), (0, 1), (1, 0), (1, 1)] {
                if r + dr < rows && c + dc < cols {
                    let p = &pixels[(r + dr) * cols + c + dc];
                    for ch in 0..sums.len() {
                        sums[ch] += p[ch] as i32;
                    }
                    count += 1;
                }
            }
            out.push(sums.iter().map(|s| roundf(*s as f32 / count as f32) as i8).collect());
        }
    }
    out
}

fn four_by_four() -> (Vec<Vec<i8>>, Tensor4D<i8>) {
    let values: Vec<Vec<i8>> = (0..16).map(|i| vec![((i * 37) % 23) as i8 - 11, ((i * 11) % 7) as i8]).collect();
    let input = Tensor4D { batches: 1, rows: 4, cols: 4, chans: 2, buffer: vec![values.clone()], zero_point: vec![0] };
    (values, input)
}

fn valid_max_pool_2x2() -> StreamingMaxPool2D<i8> {
    let options = MaxPool2DOptions {
        fused_activation: FusedActivation::Linear,
        view_padding: TensorViewPadding::Valid,
        strides: (1, 1),
    };
    StreamingMaxPool2D::new(4, 4, 2, 2, 2, 6, 0, 0, 127, options)
}

fn average_pool_2x2_on_3x3(padding: TensorViewPadding) -> StreamingAveragePool2D<i8, impl Fn(i32, usize) -> i8> {
    let options = AveragePool2DOptions { fused_activation: FusedActivation::Linear, view_padding: padding, strides: (1, 1) };
    StreamingAveragePool2D::new(3, 3, 2, 2, 2, 5, 0, 0, 127, options, pool_requantize((1.0, 0.0)))
}

#[test]
fn valid_max_pool_then_same_average_pool_in_stages() {
    // The second operator's last outputs fall due after its input: run as stages of their
    // own, each drained by the pipeline, the two layers compose.
    let (values, input) = four_by_four();
    let pooled = stream_pipeline(&input, 3, 3, 2, valid_max_pool_2x2());
    let mid = reference_max_pool_valid_2x2(4, 4, &values);
    assert_eq!(pixels(&pooled), mid);
    let result = stream_pipeline(&pooled, 3, 3, 2, average_pool_2x2_on_3x3(TensorViewPadding::Same));
    assert_eq!(pixels(&result), reference_average_pool_same_2x2(3, 3, &mid));
}

#[test]
fn chain_of_valid_pools_composes_layers() {
    // Both operators finish on their inputs: the chain gives the second layer applied to
    // the first, as the stages do.
    let (values, input) = four_by_four();
    let mid = reference_max_pool_valid_2x2(4, 4, &values);
    let mut expected = Vec::new();
    for r in 0..2 {
        for c in 0..2 {
            let window = [&mid[r * 3 + c], &mid[r * 3 + c + 1], &mid[(r + 1) * 3 + c], &mid[(r + 1) * 3 + c + 1]];
            expected.push(
                (0..2).map(|ch| roundf(window.iter().map(|p| p[ch] as i32).sum::<i32>() as f32 / 4.0) as i8).collect::<Vec<i8>>(),
            );
        }
    }
    let chain = valid_max_pool_2x2().and_then(average_pool_2x2_on_3x3(TensorViewPadding::Valid));
    let chained = stream_pipeline(&input, 2, 2, 2, chain);
    assert_eq!(pixels(&chained), expected);
    let pooled = stream_pipeline(&input, 3, 3, 2, valid_max_pool_2x2());
    let staged = stream_pipeline(&pooled, 2, 2, 2, average_pool_2x2_on_3x3(TensorViewPadding::Valid));
    assert_eq!(pixels(&staged), expected);
}

#[test]
fn chain_ending_in_global_average_pool_composes_layers() {
    // Global average pooling emits on its input's last pixel, so it needs no drain of its own.
    let (values, input) = four_by_four();
    let mid = reference_max_pool_valid_2x2(4, 4, &values);
    let expected: Vec<i8> =
        (0..2).map(|ch| roundf(mid.iter().map(|p| p[ch] as i32).sum::<i32>() as f32 / 9.0) as i8).collect();
    let gap = StreamingGlobalAveragePool2D::new(3, 3, 2, 0, 0, 127, FusedActivation::Linear, mean_requantize((1.0, 0.0)));
    let chained = stream_pipeline(&input, 1, 1, 2, valid_max_pool_2x2().and_then(gap));
    assert_eq!(pixels(&chained), vec![expected]);
}
