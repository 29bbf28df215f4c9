//! GlobalAveragePool2D over a whole tensor: the channel-wise average of all its pixels.
use vstd::prelude::*;

use crate::activation::{activate, spec_activate, FusedActivation};
use crate::quantize::Quantized;
use crate::streaming_ops::global_average_pool_2d::{
    channel_sum, lemma_channel_sum_bounds, lemma_channel_sum_prefix, StreamingGlobalAveragePool2D,
};
use crate::streaming_ops::stream_op::StreamOp;
use crate::streaming_ops::stream_pipeline::{
    emits_as, emitted, feed, feed_prefix, finishes_on_input, input_pixels, is_run, lemma_emitted_prefix, placed,
    stops,
};
use crate::tensor::Tensor4D;

verus! {

/// `y` is channel `ch` of the GlobalAveragePool2D of `input`: the activated requantization
/// of the channel's sum over all pixels of the input and the number of pixels.
pub open spec fn is_mean_value<T: Quantized, Q: Fn(i32, usize) -> T>(
    input: &Tensor4D<T>,
    requantize: Q,
    fused_activation: FusedActivation,
    output_zero_point: T,
    output_relu6_limit: T,
    ch: int,
    y: T,
) -> bool {
    let area = input.rows * input.cols;
    exists|r: T|
        #[trigger] call_ensures(
            requantize,
            (channel_sum(input_pixels(input), ch, area as nat) as i32, area as usize),
            r,
        ) && y == spec_activate(fused_activation, r, output_zero_point, output_relu6_limit)
}

/// Performs the GlobalAveragePool2D operation on a one-batch input: returns the
/// `[1, 1, 1, chans]` tensor whose channel `ch` is the activated requantization of the sum of
/// channel `ch` over the input (`requantize` takes the sum and the number of pixels).
pub fn global_average_pool_2d<T: Quantized, Q: Fn(i32, usize) -> T>(
    input: Tensor4D<T>,
    output_zero_point: T,
    output_relu6_limit: T,
    fused_activation: FusedActivation,
    requantize: Q,
) -> (output: Tensor4D<T>)
    requires
        input.wf(),
        input.batches == 1,
        input.rows * input.cols * T::magnitude() <= i32::MAX,
        forall|sum: i32, count: usize| #[trigger] call_requires(requantize, (sum, count)),
    ensures
        output.wf(),
        output.batches == 1,
        output.rows == 1,
        output.cols == 1,
        output.chans == input.chans,
        output.zero_point@ == seq![output_zero_point],
        forall|ch: int|
            0 <= ch < input.chans ==> is_mean_value(
                &input,
                requantize,
                fused_activation,
                output_zero_point,
                output_relu6_limit,
                ch,
                #[trigger] output.pixel(0, 0)[ch],
            ),
{
    let area = input.rows * input.cols;
    let ghost pixels = input_pixels(&input);
    let mut y: Vec<T> = Vec::new();
    let mut ch: usize = 0;
    while ch < input.chans
        invariant
            input.wf(),
            input.batches == 1,
            area == input.rows * input.cols,
            area * T::magnitude() <= i32::MAX,
            pixels == input_pixels(&input),
            forall|sum: i32, count: usize| #[trigger] call_requires(requantize, (sum, count)),
            ch <= input.chans,
            y@.len() == ch,
            forall|k: int|
                0 <= k < ch ==> is_mean_value(
                    &input,
                    requantize,
                    fused_activation,
                    output_zero_point,
                    output_relu6_limit,
                    k,
                    #[trigger] y@[k],
                ),
        decreases input.chans - ch,
    {
        let mut sum: i32 = 0;
        let mut p: usize = 0;
        while p < area
            invariant
                input.wf(),
                input.batches == 1,
                area == input.rows * input.cols,
                area * T::magnitude() <= i32::MAX,
                pixels == input_pixels(&input),
                ch < input.chans,
                p <= area,
                sum == channel_sum(pixels, ch as int, p as nat),
            decreases area - p,
        {
            proof {
                lemma_channel_sum_bounds(pixels, ch as int, p as nat);
                T::lemma_value_magnitude(pixels[p as int][ch as int]);
                let m = T::magnitude();
                assert(p * m + m <= area * m) by (nonlinear_arith)
                    requires p < area, m >= 1;
                assert(input.buffer@[0]@[p as int]@.len() == input.chans);
            }
            sum = sum + input.buffer[0][p][ch].to_i32();
            p = p + 1;
        }
        let r = requantize(sum, area);
        let v = activate(fused_activation, r, output_zero_point, output_relu6_limit);
        proof {
            let total = channel_sum(pixels, ch as int, area as nat);
            lemma_channel_sum_bounds(pixels, ch as int, area as nat);
            assert(total as i32 == sum);
            assert(call_ensures(requantize, (total as i32, area as usize), r));
        }
        y.push(v);
        ch = ch + 1;
    }
    let mut row: Vec<Vec<T>> = Vec::new();
    row.push(y);
    let mut buffer: Vec<Vec<Vec<T>>> = Vec::new();
    buffer.push(row);
    let mut zero_point: Vec<T> = Vec::new();
    zero_point.push(output_zero_point);
    Tensor4D { batches: 1, rows: 1, cols: 1, chans: input.chans, buffer, zero_point }
}

/// The streaming operator computes the same mean as the whole-tensor operator: once the
/// pixels that it took begin with the input's pixels, each channel of its output is the
/// whole-tensor GlobalAveragePool2D of the input.
pub proof fn lemma_streaming_matches_batch<T: Quantized, Q: Fn(i32, usize) -> T>(
    op: StreamingGlobalAveragePool2D<T, Q>,
    input: &Tensor4D<T>,
    ch: int,
    y: T,
)
    requires
        input.wf(),
        input.batches == 1,
        op.input_rows == input.rows,
        op.input_cols == input.cols,
        op.pixels@.len() >= input.rows * input.cols,
        forall|i: int| 0 <= i < input.rows * input.cols ==> #[trigger] op.pixels@[i] == input.pixel(0, i),
    ensures
        op.is_output_value(ch, y) <==> is_mean_value(
            input,
            op.requantize,
            op.fused_activation,
            op.output_zero_point,
            op.output_relu6_limit,
            ch,
            y,
        ),
{
    let area = (input.rows * input.cols) as nat;
    let pixels = input_pixels(input);
    assert forall|i: int| 0 <= i < area implies op.pixels@[i] == pixels[i] by {
        assert(op.pixels@[i] == input.pixel(0, i));
    }
    lemma_channel_sum_prefix(op.pixels@, pixels, ch, area);
    let key = (channel_sum(pixels, ch, area) as i32, area as usize);
    assert(op.area() == area);
    if op.is_output_value(ch, y) {
        let r = choose|r: T|
            #[trigger] call_ensures(op.requantize, (channel_sum(op.pixels@, ch, op.area() as nat) as i32, op.area() as usize), r)
                && y == spec_activate(op.fused_activation, r, op.output_zero_point, op.output_relu6_limit);
        assert(call_ensures(op.requantize, key, r));
    }
    if is_mean_value(input, op.requantize, op.fused_activation, op.output_zero_point, op.output_relu6_limit, ch, y) {
        let r = choose|r: T|
            #[trigger] call_ensures(op.requantize, key, r)
                && y == spec_activate(op.fused_activation, r, op.output_zero_point, op.output_relu6_limit);
        assert(call_ensures(op.requantize, (channel_sum(op.pixels@, ch, op.area() as nat) as i32, op.area() as usize), r));
    }
}

/// Along a run of a fresh operator, the pushes before the last input pixel emit nothing and
/// leave the configuration as it was.
proof fn lemma_run_before_output<T: Quantized, Q: Fn(i32, usize) -> T>(
    op: StreamingGlobalAveragePool2D<T, Q>,
    input: &Tensor4D<T>,
    states: Seq<StreamingGlobalAveragePool2D<T, Q>>,
    outs: Seq<Option<Seq<T>>>,
    j: int,
)
    requires
        is_run(op, input, states, outs),
        op.in_cycle == 0,
        op.out_cycle == 0,
        op.pixels@ == Seq::<Seq<T>>::empty(),
        op.input_rows == input.rows,
        op.input_cols == input.cols,
        0 <= j < input.rows * input.cols,
        j <= outs.len(),
    ensures
        states[j].in_cycle == j,
        states[j].out_cycle == 0,
        states[j].pixels@ == feed_prefix(input, j as nat),
        emitted(outs.take(j)).len() == 0,
        states[j].input_rows == op.input_rows,
        states[j].input_cols == op.input_cols,
        states[j].input_chans == op.input_chans,
        states[j].output_zero_point == op.output_zero_point,
        states[j].output_relu6_limit == op.output_relu6_limit,
        states[j].fused_activation == op.fused_activation,
        states[j].requantize == op.requantize,
    decreases j,
{
    if j == 0 {
        assert(outs.take(0) =~= Seq::<Option<Seq<T>>>::empty());
        assert(feed_prefix(input, 0) =~= Seq::<Seq<T>>::empty());
    } else {
        let i = j - 1;
        lemma_run_before_output(op, input, states, outs, i);
        assert(states[i].push_rel(feed(input, i), states[i + 1], outs[i]));
        assert(outs[i] is None);
        assert(outs.take(j).drop_last() =~= outs.take(i));
        assert(states[j].pixels@ =~= feed_prefix(input, j as nat));
    }
}

/// Streaming GlobalAveragePool2D over a whole tensor gives the whole-tensor
/// GlobalAveragePool2D: the output of `stream_pipeline` over a fresh operator, with one
/// output pixel, holds in each channel the mean value of `global_average_pool_2d`.
pub proof fn lemma_pipeline_output_is_mean<T: Quantized, Q: Fn(i32, usize) -> T>(
    op: StreamingGlobalAveragePool2D<T, Q>,
    input: &Tensor4D<T>,
    output: &Tensor4D<T>,
)
    requires
        op.wf(),
        op.in_cycle == 0,
        op.out_cycle == 0,
        input.wf(),
        input.batches == 1,
        input.rows == op.input_rows,
        input.cols == op.input_cols,
        input.chans == op.input_chans,
        input.rows * input.cols >= 1,
        exists|states: Seq<StreamingGlobalAveragePool2D<T, Q>>, outs: Seq<Option<Seq<T>>>|
            {
                &&& is_run(op, input, states, outs)
                &&& stops(input, states, outs, 1, 1)
                &&& #[trigger] output.pixel(0, 0) == placed(
                    outs,
                    input.zero_point@[0],
                    op.input_chans as nat,
                    0,
                )
            },
    ensures
        forall|ch: int|
            0 <= ch < input.chans ==> is_mean_value(
                input,
                op.requantize,
                op.fused_activation,
                op.output_zero_point,
                op.output_relu6_limit,
                ch,
                #[trigger] output.pixel(0, 0)[ch],
            ),
{
    let (states, outs) = choose|states: Seq<StreamingGlobalAveragePool2D<T, Q>>, outs: Seq<Option<Seq<T>>>|
        {
            &&& is_run(op, input, states, outs)
            &&& stops(input, states, outs, 1, 1)
            &&& #[trigger] output.pixel(0, 0) == placed(outs, input.zero_point@[0], op.input_chans as nat, 0)
        };
    assert(op.pixels@ =~= Seq::<Seq<T>>::empty());
    let area = input.rows * input.cols;
    let last = area - 1;
    lemma_run_before_output(op, input, states, outs, last);
    assert(states[last].push_rel(feed(input, last), states[last + 1], outs[last]));
    let s = states[last + 1];
    let y = outs[last]->0;
    assert(outs[last] is Some);
    assert(outs.take(area).drop_last() =~= outs.take(last));
    assert(emitted(outs.take(area)) == emitted(outs.take(last)).push(y));
    assert(emitted(outs.take(area)).len() == 1 && emitted(outs.take(area))[0] == y);
    lemma_emitted_prefix(outs, area);
    assert(emitted(outs)[0] == y);
    assert(output.pixel(0, 0) == y);
    assert(s.pixels@ =~= feed_prefix(input, area as nat));
    assert forall|ch: int| 0 <= ch < input.chans implies is_mean_value(
        input,
        op.requantize,
        op.fused_activation,
        op.output_zero_point,
        op.output_relu6_limit,
        ch,
        #[trigger] output.pixel(0, 0)[ch],
    ) by {
        assert(s.is_output_value(ch, y[ch]));
        lemma_streaming_matches_batch(s, input, ch, y[ch]);
    }
}

/// `y` is the GlobalAveragePool2D pixel of `input` for the operator's requantizer, activation
/// and output quantization: each of its channels is the channel's mean value.
pub open spec fn is_mean_pixel<T: Quantized, Q: Fn(i32, usize) -> T>(
    op: StreamingGlobalAveragePool2D<T, Q>,
    input: &Tensor4D<T>,
    y: Seq<T>,
) -> bool {
    &&& y.len() == input.chans
    &&& forall|ch: int|
        0 <= ch < input.chans ==> is_mean_value(
            input,
            op.requantize,
            op.fused_activation,
            op.output_zero_point,
            op.output_relu6_limit,
            ch,
            #[trigger] y[ch],
        )
}

/// Along a run of a fresh operator, after `j` pushes: before the input's last pixel nothing
/// has been emitted and the operator is not finished; from that pixel on, exactly one pixel
/// has been emitted, the mean pixel, and the operator is finished.
proof fn lemma_run_prefix_emissions<T: Quantized, Q: Fn(i32, usize) -> T>(
    op: StreamingGlobalAveragePool2D<T, Q>,
    input: &Tensor4D<T>,
    states: Seq<StreamingGlobalAveragePool2D<T, Q>>,
    outs: Seq<Option<Seq<T>>>,
    j: int,
)
    requires
        op.wf(),
        op.in_cycle == 0,
        op.out_cycle == 0,
        input.wf(),
        input.batches == 1,
        input.rows == op.input_rows,
        input.cols == op.input_cols,
        input.chans == op.input_chans,
        input.rows * input.cols >= 1,
        is_run(op, input, states, outs),
        0 <= j <= outs.len(),
    ensures
        j < input.rows * input.cols ==> emitted(outs.take(j)).len() == 0 && !states[j].finished(),
        j >= input.rows * input.cols ==> {
            &&& emitted(outs.take(j)).len() == 1
            &&& states[j].finished()
            &&& is_mean_pixel(op, input, emitted(outs.take(j))[0])
        },
    decreases j,
{
    let area = input.rows * input.cols;
    assert(op.pixels@ =~= Seq::<Seq<T>>::empty());
    if j < area {
        lemma_run_before_output(op, input, states, outs, j);
    } else if j == area {
        let last = area - 1;
        lemma_run_before_output(op, input, states, outs, last);
        assert(states[last].push_rel(feed(input, last), states[last + 1], outs[last]));
        let s = states[last + 1];
        assert(outs[last] is Some);
        let y = outs[last]->0;
        assert(outs.take(area).drop_last() =~= outs.take(last));
        assert(emitted(outs.take(area)) == emitted(outs.take(last)).push(y));
        assert(s.pixels@ =~= feed_prefix(input, area as nat));
        assert forall|ch: int| 0 <= ch < input.chans implies is_mean_value(
            input,
            op.requantize,
            op.fused_activation,
            op.output_zero_point,
            op.output_relu6_limit,
            ch,
            #[trigger] y[ch],
        ) by {
            assert(s.is_output_value(ch, y[ch]));
            lemma_streaming_matches_batch(s, input, ch, y[ch]);
        }
    } else {
        let i = j - 1;
        lemma_run_prefix_emissions(op, input, states, outs, i);
        assert(states[i].push_rel(feed(input, i), states[i + 1], outs[i]));
        states[i].lemma_finished_stays_finished(feed(input, i), states[i + 1], outs[i]);
        assert(outs.take(j).drop_last() =~= outs.take(i));
    }
}

/// Streaming GlobalAveragePool2D, pushed the pixels of a tensor and then any further pixels:
/// from a fresh operator, exactly one push returns a pixel, the push that takes the input's
/// last pixel, and that pixel is the GlobalAveragePool2D of the input, channel by channel;
/// once the input is taken the operator is finished. Hence it emits the one mean pixel and
/// finishes on its input alone.
pub proof fn lemma_emits_mean<T: Quantized, Q: Fn(i32, usize) -> T>(
    op: StreamingGlobalAveragePool2D<T, Q>,
    input: &Tensor4D<T>,
)
    requires
        op.wf(),
        op.in_cycle == 0,
        op.out_cycle == 0,
        input.wf(),
        input.batches == 1,
        input.rows == op.input_rows,
        input.cols == op.input_cols,
        input.chans == op.input_chans,
        input.rows * input.cols >= 1,
    ensures
        forall|states: Seq<StreamingGlobalAveragePool2D<T, Q>>, outs: Seq<Option<Seq<T>>>, i: int|
            #[trigger] is_run(op, input, states, outs) && 0 <= i < outs.len() ==> (#[trigger] outs[i] is Some
                <==> i == input.rows * input.cols - 1),
        forall|states: Seq<StreamingGlobalAveragePool2D<T, Q>>, outs: Seq<Option<Seq<T>>>|
            #[trigger] is_run(op, input, states, outs) && outs.len() >= input.rows * input.cols
                ==> is_mean_pixel(op, input, outs[input.rows * input.cols - 1]->0),
        emits_as(op, input, 1, |p: int, y: Seq<T>| is_mean_pixel(op, input, y)),
        finishes_on_input(op, input),
{
    let area = input.rows * input.cols;
    assert forall|states: Seq<StreamingGlobalAveragePool2D<T, Q>>, outs: Seq<Option<Seq<T>>>, i: int|
        #[trigger] is_run(op, input, states, outs) && 0 <= i < outs.len() implies (#[trigger] outs[i] is Some
            <==> i == area - 1) by {
        lemma_run_prefix_emissions(op, input, states, outs, i);
        lemma_run_prefix_emissions(op, input, states, outs, i + 1);
        assert(outs.take(i + 1).drop_last() =~= outs.take(i));
        assert(outs.take(i + 1).last() == outs[i]);
    }
    assert forall|states: Seq<StreamingGlobalAveragePool2D<T, Q>>, outs: Seq<Option<Seq<T>>>|
        #[trigger] is_run(op, input, states, outs) && outs.len() >= area implies is_mean_pixel(
            op,
            input,
            outs[area - 1]->0,
        ) by {
        lemma_run_prefix_emissions(op, input, states, outs, area - 1);
        lemma_run_prefix_emissions(op, input, states, outs, area);
        assert(outs.take(area).drop_last() =~= outs.take(area - 1));
        assert(outs.take(area).last() == outs[area - 1]);
    }
    assert forall|states: Seq<StreamingGlobalAveragePool2D<T, Q>>, outs: Seq<Option<Seq<T>>>|
        #[trigger] is_run(op, input, states, outs) implies {
            &&& emitted(outs).len() <= 1
            &&& forall|p: int| 0 <= p < emitted(outs).len() ==> (|p: int, y: Seq<T>| is_mean_pixel(op, input, y))(p, #[trigger] emitted(outs)[p])
            &&& states.last().finished() ==> emitted(outs).len() == 1
            &&& outs.len() >= area ==> states.last().finished()
        } by {
        let n = outs.len() as int;
        lemma_run_prefix_emissions(op, input, states, outs, n);
        assert(outs.take(n) =~= outs);
        assert(states.last() == states[n]);
    }
}

} // verus!
