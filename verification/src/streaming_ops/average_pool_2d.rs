//! Streaming AveragePool2D: the channel-wise average over the part of each filter window
//! that lies inside the input.
use vstd::prelude::*;

use crate::activation::{activate, spec_activate};
use crate::ops_options::AveragePool2DOptions;
use crate::quantize::Quantized;
use crate::streaming_ops::max_pool_2d::StreamingMaxPool2D;
use crate::streaming_ops::stream_op::{opt_view, Chain, StreamOp};
use crate::streaming_ops::schedule::{
    lemma_drain_reaches_outputs, lemma_emission_reaches, lemma_max_required_bounds, lemma_run_caught_up, lemma_run_config, lemma_run_finishes, lemma_run_prompt, lemma_total_output_bound, lemma_valid_outputs_due_on_input, lemma_run_progress, max_required, window_step,
};
use crate::streaming_ops::stream_pipeline::{
    drain_limit, emit_flags, emits_as, emitted, feed, feed_prefix, finishes_on_input, finishes_within, input_pixels, is_pixel_of,
    is_run, lemma_chain_pipeline_in_sequence, lemma_emits_as_weaken, lemma_emitted_at, placed, stops,
};
use crate::streaming_ops::window::{StreamWindow, out_extent};
use crate::tensor::Tensor4D;
use crate::tensor::TensorViewPadding;

verus! {

/// An AveragePool2D operator that takes its input one pixel at a time.
///
/// `requantize` maps the sum of the quantized values of a window and the number of values
/// summed to the quantized output value (this is where the operator's scaling constants
/// live); the fused activation is applied after it.
pub struct StreamingAveragePool2D<T, Q> {
    /// The sliding window over the input.
    pub window: StreamWindow<T>,
    pub output_zero_point: T,
    /// 6.0 quantized with the output's scale and zero point: the ceiling of ReLU6.
    pub output_relu6_limit: T,
    pub options: AveragePool2DOptions,
    pub requantize: Q,
}

impl<T: Quantized, Q: Fn(i32, usize) -> T> StreamingAveragePool2D<T, Q> {
    /// Well-formedness: a well-formed window configured as the options say, a requantizer
    /// that takes every sum, and windows small enough for an `i32` sum.
    pub open spec fn wf(&self) -> bool {
        &&& self.window.wf()
        &&& self.window.view_padding == self.options.view_padding
        &&& self.window.strides == self.options.strides
        &&& self.window.filter_rows * self.window.filter_cols * T::magnitude() <= i32::MAX
        &&& forall|sum: i32, count: usize| #[trigger] call_requires(self.requantize, (sum, count))
    }

    /// The number of taps of output `(out_row, out_col)` inside the input, over the rows
    /// before `kh` and the first `kw` taps of row `kh`.
    pub open spec fn window_count(&self, out_row: int, out_col: int, kh: nat, kw: nat) -> nat
        decreases kh, kw,
    {
        if kw == 0 {
            if kh == 0 {
                0
            } else {
                self.window_count(out_row, out_col, (kh - 1) as nat, self.window.filter_cols as nat)
            }
        } else {
            let prev = self.window_count(out_row, out_col, kh, (kw - 1) as nat);
            if self.window.in_input(self.window.tap_row(out_row, kh as int), self.window.tap_col(out_col, kw - 1)) {
                prev + 1
            } else {
                prev
            }
        }
    }

    /// The sum of channel `ch` over the same taps as `window_count`.
    pub open spec fn window_sum(&self, out_row: int, out_col: int, ch: int, kh: nat, kw: nat) -> int
        decreases kh, kw,
    {
        if kw == 0 {
            if kh == 0 {
                0
            } else {
                self.window_sum(out_row, out_col, ch, (kh - 1) as nat, self.window.filter_cols as nat)
            }
        } else {
            let prev = self.window_sum(out_row, out_col, ch, kh, (kw - 1) as nat);
            let r = self.window.tap_row(out_row, kh as int);
            let c = self.window.tap_col(out_col, kw - 1);
            if self.window.in_input(r, c) {
                prev + self.window.sees_value(r, c, ch).value()
            } else {
                prev
            }
        }
    }

    /// `y` is channel `ch` of output `(out_row, out_col)`: the activated requantization of the
    /// window's sum and count.
    pub open spec fn is_output_value(&self, out_row: int, out_col: int, ch: int, y: T) -> bool {
        let full = self.window.filter_rows as nat;
        exists|r: T|
            #[trigger] call_ensures(
                self.requantize,
                (
                    self.window_sum(out_row, out_col, ch, full, 0) as i32,
                    self.window_count(out_row, out_col, full, 0) as usize,
                ),
                r,
            ) && y == spec_activate(
                self.options.fused_activation,
                r,
                self.output_zero_point,
                self.output_relu6_limit,
            )
    }

    /// `y` is output pixel `(out_row, out_col)` as the window sees the input now.
    pub open spec fn is_output(&self, out_row: int, out_col: int, y: Seq<T>) -> bool {
        &&& y.len() == self.window.input_chans
        &&& forall|ch: int|
            0 <= ch < y.len() ==> self.is_output_value(out_row, out_col, ch, #[trigger] y[ch])
    }

    /// The reference (whole-tensor) AveragePool2D sum: as `window_sum`, but over the input
    /// pixels themselves, `input[r * cols + c]`.
    pub open spec fn reference_sum(&self, input: Seq<Seq<T>>, out_row: int, out_col: int, ch: int, kh: nat, kw: nat) -> int
        decreases kh, kw,
    {
        if kw == 0 {
            if kh == 0 {
                0
            } else {
                self.reference_sum(input, out_row, out_col, ch, (kh - 1) as nat, self.window.filter_cols as nat)
            }
        } else {
            let prev = self.reference_sum(input, out_row, out_col, ch, kh, (kw - 1) as nat);
            let r = self.window.tap_row(out_row, kh as int);
            let c = self.window.tap_col(out_col, kw - 1);
            if self.window.in_input(r, c) {
                prev + input[r * self.window.input_cols + c][ch].value()
            } else {
                prev
            }
        }
    }

    /// `y` is channel `ch` of output `(out_row, out_col)` of the reference AveragePool2D of
    /// `input`.
    pub open spec fn is_reference_output_value(&self, input: Seq<Seq<T>>, out_row: int, out_col: int, ch: int, y: T) -> bool {
        let full = self.window.filter_rows as nat;
        exists|r: T|
            #[trigger] call_ensures(
                self.requantize,
                (
                    self.reference_sum(input, out_row, out_col, ch, full, 0) as i32,
                    self.window_count(out_row, out_col, full, 0) as usize,
                ),
                r,
            ) && y == spec_activate(
                self.options.fused_activation,
                r,
                self.output_zero_point,
                self.output_relu6_limit,
            )
    }

    /// `y` is output pixel `(out_row, out_col)` of the reference AveragePool2D of `input`.
    pub open spec fn is_reference_output(&self, input: Seq<Seq<T>>, out_row: int, out_col: int, y: Seq<T>) -> bool {
        &&& y.len() == self.window.input_chans
        &&& forall|ch: int|
            0 <= ch < y.len() ==> self.is_reference_output_value(input, out_row, out_col, ch, #[trigger] y[ch])
    }

    /// The number of output `(out_row, out_col)`'s filter taps that lie inside the input: the
    /// rows of the window inside the input times its columns inside the input.
    pub proof fn lemma_count_is_taps_inside_input(&self, out_row: int, out_col: int)
        ensures
            self.window_count(out_row, out_col, self.window.filter_rows as nat, 0) == span_overlap(
                out_row * self.window.strides.0 - self.window.shift_rows,
                self.window.filter_rows as int,
                self.window.input_rows as int,
            ) * span_overlap(
                out_col * self.window.strides.1 - self.window.shift_cols,
                self.window.filter_cols as int,
                self.window.input_cols as int,
            ),
    {
        self.lemma_count_rows(out_row, out_col, self.window.filter_rows as nat, 0);
    }

    /// The taps counted over the rows before `kh` and the first `kw` taps of row `kh`: whole
    /// rows inside the input, then the part of row `kh` inside it.
    proof fn lemma_count_rows(&self, out_row: int, out_col: int, kh: nat, kw: nat)
        requires
            kh <= self.window.filter_rows,
            kw <= self.window.filter_cols,
        ensures
            ({
                let rs = out_row * self.window.strides.0 - self.window.shift_rows;
                let cs = out_col * self.window.strides.1 - self.window.shift_cols;
                let rows = self.window.input_rows as int;
                let cols = self.window.input_cols as int;
                self.window_count(out_row, out_col, kh, kw) == span_overlap(rs, kh as int, rows) * span_overlap(
                    cs,
                    self.window.filter_cols as int,
                    cols,
                ) + if 0 <= rs + kh < rows {
                    span_overlap(cs, kw as int, cols)
                } else {
                    0
                }
            }),
        decreases kh, kw,
    {
        let rs = out_row * self.window.strides.0 - self.window.shift_rows;
        let cs = out_col * self.window.strides.1 - self.window.shift_cols;
        let rows = self.window.input_rows as int;
        let cols = self.window.input_cols as int;
        let fc = self.window.filter_cols as int;
        let full = span_overlap(cs, fc, cols);
        if kw == 0 {
            lemma_span_overlap_empty(cs, cols);
            if kh == 0 {
                lemma_span_overlap_empty(rs, rows);
            } else {
                let m = (kh - 1) as nat;
                self.lemma_count_rows(out_row, out_col, m, self.window.filter_cols as nat);
                lemma_span_overlap_step(rs, m as int, rows);
                let a = span_overlap(rs, m as int, rows);
                if 0 <= rs + m < rows {
                    assert((a + 1) * full == a * full + full) by (nonlinear_arith);
                }
            }
        } else {
            let k = (kw - 1) as nat;
            self.lemma_count_rows(out_row, out_col, kh, k);
            lemma_span_overlap_step(cs, k as int, cols);
            assert(self.window.tap_row(out_row, kh as int) == rs + kh);
            assert(self.window.tap_col(out_col, k as int) == cs + k);
        }
    }

    proof fn lemma_window_sum_is_reference(&self, k: int, ch: int, kh: nat, kw: nat)
        requires
            self.wf(),
            0 <= k,
            self.window.due(k),
            self.window.serves(k),
            kh <= self.window.filter_rows,
            kw <= self.window.filter_cols,
            kh == self.window.filter_rows ==> kw == 0,
        ensures
            self.window_sum(k / self.window.out_cols(), k % self.window.out_cols(), ch, kh, kw)
                == self.reference_sum(self.window.pixels@, k / self.window.out_cols(), k % self.window.out_cols(), ch, kh, kw),
        decreases kh, kw,
    {
        let oc = self.window.out_cols();
        if kw == 0 {
            if kh > 0 {
                self.lemma_window_sum_is_reference(k, ch, (kh - 1) as nat, self.window.filter_cols as nat);
            }
        } else {
            self.lemma_window_sum_is_reference(k, ch, kh, (kw - 1) as nat);
            let r = self.window.tap_row(k / oc, kh as int);
            let c = self.window.tap_col(k % oc, kw - 1);
            if self.window.in_input(r, c) {
                self.window.lemma_due_taps_see_input(k, kh as int, kw - 1);
            }
        }
    }

    /// Streaming gives the reference result: when the ring serves the output (`serves`), the
    /// output that a push emits is the reference AveragePool2D of the pixels pushed, at that
    /// output's position.
    pub proof fn lemma_streaming_matches_reference(&self, k: int, y: Seq<T>)
        requires
            self.wf(),
            0 <= k,
            self.window.due(k),
            self.window.serves(k),
            self.is_output(k / self.window.out_cols(), k % self.window.out_cols(), y),
        ensures
            self.is_reference_output(self.window.pixels@, k / self.window.out_cols(), k % self.window.out_cols(), y),
    {
        let oc = self.window.out_cols();
        assert forall|ch: int| 0 <= ch < y.len() implies self.is_reference_output_value(self.window.pixels@, k / oc, k % oc, ch, #[trigger] y[ch]) by {
            self.lemma_window_sum_is_reference(k, ch, self.window.filter_rows as nat, 0);
            assert(self.is_output_value(k / oc, k % oc, ch, y[ch]));
        }
    }

    /// The reference sum reads the input only at the taps of the output that lie inside the
    /// input, and the sums and counts depend on the operator only through its configuration.
    proof fn lemma_reference_agree(
        &self,
        other: &Self,
        a: Seq<Seq<T>>,
        b: Seq<Seq<T>>,
        out_row: int,
        out_col: int,
        ch: int,
        kh: nat,
        kw: nat,
    )
        requires
            other.window.same_config(&self.window),
            kh <= self.window.filter_rows,
            kw <= self.window.filter_cols,
            kh == self.window.filter_rows ==> kw == 0,
            forall|i: int, j: int|
                #![trigger self.window.tap_row(out_row, i), self.window.tap_col(out_col, j)]
                0 <= i < self.window.filter_rows && 0 <= j < self.window.filter_cols
                    && self.window.in_input(self.window.tap_row(out_row, i), self.window.tap_col(out_col, j))
                    ==> a[self.window.tap_row(out_row, i) * self.window.input_cols + self.window.tap_col(out_col, j)]
                    == b[self.window.tap_row(out_row, i) * self.window.input_cols + self.window.tap_col(out_col, j)],
        ensures
            self.reference_sum(a, out_row, out_col, ch, kh, kw) == other.reference_sum(b, out_row, out_col, ch, kh, kw),
            self.window_count(out_row, out_col, kh, kw) == other.window_count(out_row, out_col, kh, kw),
        decreases kh, kw,
    {
        if kw == 0 {
            if kh > 0 {
                self.lemma_reference_agree(other, a, b, out_row, out_col, ch, (kh - 1) as nat, self.window.filter_cols as nat);
            }
        } else {
            self.lemma_reference_agree(other, a, b, out_row, out_col, ch, kh, (kw - 1) as nat);
            let i = kh as int;
            let j = kw - 1;
            if self.window.in_input(self.window.tap_row(out_row, i), self.window.tap_col(out_col, j)) {
                assert(a[self.window.tap_row(out_row, i) * self.window.input_cols + self.window.tap_col(out_col, j)]
                    == b[self.window.tap_row(out_row, i) * self.window.input_cols + self.window.tap_col(out_col, j)]);
            }
        }
    }

    proof fn lemma_pipeline_pixels(&self, input: &Tensor4D<T>, states: Seq<Self>, outs: Seq<Option<Seq<T>>>, i: int)
        requires
            self.wf(),
            self.window.in_cycle == 0,
            is_run(*self, input, states, outs),
            0 <= i < states.len(),
        ensures
            states[i].window.pixels@ == feed_prefix(input, i as nat),
            states[i].output_zero_point == self.output_zero_point,
            states[i].output_relu6_limit == self.output_relu6_limit,
            states[i].options == self.options,
            states[i].requantize == self.requantize,
        decreases i,
    {
        if i == 0 {
            assert(self.window.pixels@ =~= feed_prefix(input, 0));
        } else {
            self.lemma_pipeline_pixels(input, states, outs, i - 1);
            let j = i - 1;
            assert(states[j].push_rel(feed(input, j), states[j + 1], outs[j]));
            assert(states[i].window.pixels@ =~= feed_prefix(input, i as nat));
        }
    }

    proof fn lemma_run_emissions(
        &self,
        input: &Tensor4D<T>,
        states: Seq<Self>,
        outs: Seq<Option<Seq<T>>>,
    )
        requires
            self.wf(),
            self.window.in_cycle == 0,
            self.window.out_cycle == 0,
            self.window.ring_spans_window(),
            input.wf(),
            input.batches == 1,
            input.rows == self.window.input_rows,
            input.cols == self.window.input_cols,
            input.chans == self.window.input_chans,
            is_run(*self, input, states, outs),
        ensures
            emitted(outs).len() == states.last().window.out_cycle,
            states.last().window.out_cycle <= self.window.total_output(),
            states.last().finished() ==> emitted(outs).len() == self.window.total_output(),
            forall|p: int|
                0 <= p < emitted(outs).len() ==> self.is_reference_output(
                    input_pixels(input),
                    p / self.window.out_cols(),
                    p % self.window.out_cols(),
                    #[trigger] emitted(outs)[p],
                ),
    {
        let n = outs.len() as int;
        let es = emit_flags(outs);
        let ws = Seq::new(states.len(), |i: int| states[i].window);
        assert forall|i: int| 0 <= i < es.len() implies #[trigger] window_step(ws[i], ws[i + 1], es[i]) by {
            assert(states[i].push_rel(feed(input, i), states[i + 1], outs[i]));
        }
        let total_out = self.window.total_output();
        let oc = self.window.out_cols();
        assert(ws[0] == self.window);
        assert forall|i: int| 0 <= i < ws.len() implies (#[trigger] ws[i]).out_cycle <= ws[i].total_output() by {
            assert(states[i].inv());
        }
        lemma_run_config(ws, es, n);
        crate::streaming_ops::stream_pipeline::lemma_emitted_count(outs, n);
        assert(states[n].inv());
        assert(states.last() == states[n]);
        assert(outs.take(n) =~= outs);
        assert forall|p: int| 0 <= p < emitted(outs).len() implies self.is_reference_output(
            input_pixels(input),
            p / oc,
            p % oc,
            #[trigger] emitted(outs)[p],
        ) by {
            lemma_emission_reaches(ws, es, n, p);
            let i = choose|i: int| 0 <= i < n && #[trigger] es[i] && ws[i].out_cycle == p;
            lemma_run_config(ws, es, i);
            lemma_emitted_at(outs, i);
            let s = states[i + 1];
            let y = emitted(outs)[p];
            assert(states[i].push_rel(feed(input, i), states[i + 1], outs[i]));
            lemma_run_config(ws, es, i + 1);
            self.lemma_pipeline_pixels(input, states, outs, i + 1);
            assert(s.inv());
            assert(s.window.serves(p)) by {
                if !(s.window.buf_size() >= s.window.total_input() || s.window.filter_rows == 0
                    || s.window.filter_cols == 0) {
                    lemma_run_prompt(ws, es, i);
                }
            }
            s.lemma_streaming_matches_reference(p, y);
            assert forall|ch: int| 0 <= ch < y.len() implies self.is_reference_output_value(input_pixels(input), p / oc, p % oc, ch, #[trigger] y[ch]) by {
                assert forall|a: int, b: int|
                    #![trigger s.window.tap_row(p / oc, a), s.window.tap_col(p % oc, b)]
                    0 <= a < s.window.filter_rows && 0 <= b < s.window.filter_cols
                        && s.window.in_input(s.window.tap_row(p / oc, a), s.window.tap_col(p % oc, b))
                        implies s.window.pixels@[s.window.tap_row(p / oc, a) * s.window.input_cols + s.window.tap_col(p % oc, b)]
                        == input_pixels(input)[s.window.tap_row(p / oc, a) * s.window.input_cols + s.window.tap_col(p % oc, b)] by {
                    s.window.lemma_due_taps_see_input(p, a, b);
                }
                s.lemma_reference_agree(self, s.window.pixels@, input_pixels(input), p / oc, p % oc, ch, s.window.filter_rows as nat, 0);
                assert(s.is_reference_output_value(s.window.pixels@, p / oc, p % oc, ch, y[ch]));
            }
        }
    }

    /// The relation "`y` is output `p` (in raster order) of the reference over `input`".
    pub open spec fn reference_relation(self, input: &Tensor4D<T>) -> spec_fn(int, Seq<T>) -> bool {
        |p: int, y: Seq<T>| self.is_reference_output(input_pixels(input), p / self.window.out_cols(), p % self.window.out_cols(), y)
    }

    /// Every run of a fresh AveragePool2D whose ring spans a filter window, over any input of its
    /// shape, emits its outputs in raster order, each the reference AveragePool2D of the input at
    /// its position, all of them once it is finished. It finishes within the pipeline's
    /// feed and drain; within `(rows + filter_rows) * cols + filter_cols` pushes plus one per
    /// output when its filter has taps; and within its input alone when every output needs
    /// only input pixels, as with Valid padding and a filter that fits the input.
    pub proof fn lemma_emits_reference(&self, input: &Tensor4D<T>)
        requires
            self.wf(),
            self.window.in_cycle == 0,
            self.window.out_cycle == 0,
            self.window.ring_spans_window(),
            input.wf(),
            input.batches == 1,
            input.rows == self.window.input_rows,
            input.cols == self.window.input_cols,
            input.chans == self.window.input_chans,
        ensures
            emits_as(*self, input, self.window.total_output() as nat, self.reference_relation(input)),
            finishes_within(
                *self,
                input,
                (input.rows * input.cols + drain_limit(input, self.window.out_rows(), self.window.out_cols(), self.window.drain_extra() as int)) as nat,
            ),
            self.window.filter_cols >= 1 && max_required(self.window, self.window.total_output() as nat)
                <= self.window.total_input() ==> finishes_on_input(*self, input),
            self.window.view_padding == TensorViewPadding::Valid && 1 <= self.window.filter_rows <= input.rows
                && 1 <= self.window.filter_cols <= input.cols ==> finishes_on_input(*self, input),
            self.window.filter_rows >= 1 && self.window.filter_cols >= 1 ==> finishes_within(
                *self,
                input,
                ((input.rows + self.window.filter_rows) * input.cols + self.window.filter_cols
                    + self.window.total_output()) as nat,
            ),
    {
        let total_out = self.window.total_output();
        self.window.lemma_out_extents();
        assert(total_out >= 0) by (nonlinear_arith)
            requires total_out == self.window.out_rows() * self.window.out_cols(), self.window.out_rows() >= 0, self.window.out_cols() >= 1;
        assert forall|states: Seq<Self>, outs: Seq<Option<Seq<T>>>|
            #[trigger] is_run(*self, input, states, outs) implies {
                &&& emitted(outs).len() <= total_out as nat
                &&& forall|p: int| 0 <= p < emitted(outs).len() ==> self.reference_relation(input)(p, #[trigger] emitted(outs)[p])
                &&& states.last().finished() ==> emitted(outs).len() == total_out as nat
            } by {
            self.lemma_run_emissions(input, states, outs);
            assert forall|p: int| 0 <= p < emitted(outs).len() implies self.reference_relation(input)(p, #[trigger] emitted(outs)[p]) by {
                assert(self.reference_relation(input)(p, emitted(outs)[p]));
            }
        }
        let m = (input.rows * input.cols + drain_limit(input, self.window.out_rows(), self.window.out_cols(), self.window.drain_extra() as int)) as nat;
        assert forall|states: Seq<Self>, outs: Seq<Option<Seq<T>>>|
            #[trigger] is_run(*self, input, states, outs) && outs.len() >= m implies states.last().finished() by {
            lemma_drain_reaches_outputs(self.window);
            let n = outs.len() as int;
            let es = emit_flags(outs);
            let ws = Seq::new(states.len(), |i: int| states[i].window);
            assert forall|i: int| 0 <= i < es.len() implies #[trigger] window_step(ws[i], ws[i + 1], es[i]) by {
                assert(states[i].push_rel(feed(input, i), states[i + 1], outs[i]));
            }
            assert(ws[0] == self.window);
            assert forall|i: int| 0 <= i < ws.len() implies (#[trigger] ws[i]).out_cycle <= ws[i].total_output() by {
                assert(states[i].inv());
            }
            lemma_run_progress(ws, es, n);
            lemma_run_config(ws, es, n);
            assert(states.last() == states[n]);
        }
        if self.window.filter_rows >= 1 && self.window.filter_cols >= 1 {
            let tight = ((input.rows + self.window.filter_rows) * input.cols + self.window.filter_cols + total_out) as nat;
            assert forall|states: Seq<Self>, outs: Seq<Option<Seq<T>>>|
                #[trigger] is_run(*self, input, states, outs) && outs.len() >= tight implies states.last().finished() by {
                let n = outs.len() as int;
                let es = emit_flags(outs);
                let ws = Seq::new(states.len(), |i: int| states[i].window);
                assert forall|i: int| 0 <= i < es.len() implies #[trigger] window_step(ws[i], ws[i + 1], es[i]) by {
                    assert(states[i].push_rel(feed(input, i), states[i + 1], outs[i]));
                }
                assert(ws[0] == self.window);
                assert forall|i: int| 0 <= i < ws.len() implies (#[trigger] ws[i]).out_cycle <= ws[i].total_output() by {
                    assert(states[i].inv());
                }
                lemma_run_finishes(ws, es, n);
                lemma_run_config(ws, es, n);
                assert(states.last() == states[n]);
            }
        }
        if self.window.view_padding == TensorViewPadding::Valid && 1 <= self.window.filter_rows <= input.rows
            && 1 <= self.window.filter_cols <= input.cols {
            lemma_valid_outputs_due_on_input(self.window, total_out as nat);
        }
        if self.window.filter_cols >= 1 && max_required(self.window, total_out as nat) <= self.window.total_input() {
            assert forall|states: Seq<Self>, outs: Seq<Option<Seq<T>>>|
                #[trigger] is_run(*self, input, states, outs) && outs.len() >= input.rows * input.cols implies states.last().finished() by {
                let n = outs.len() as int;
                let es = emit_flags(outs);
                let ws = Seq::new(states.len(), |i: int| states[i].window);
            assert forall|i: int| 0 <= i < es.len() implies #[trigger] window_step(ws[i], ws[i + 1], es[i]) by {
                assert(states[i].push_rel(feed(input, i), states[i + 1], outs[i]));
            }
                assert(ws[0] == self.window);
                lemma_run_caught_up(ws, es, n);
                lemma_run_config(ws, es, n);
                assert(states.last() == states[n]);
                assert(states[n].inv());
                let k = ws[n].out_cycle as int;
                if k < total_out {
                    lemma_max_required_bounds(self.window, total_out as nat, k);
                }
            }
        }
    }

    /// Streaming AveragePool2D over a whole tensor gives the reference AveragePool2D: in every
    /// run of the pipeline with a fresh operator whose ring spans a filter window (as the ring
    /// sizes that the compiler picks do), the operator finishes and its `p`-th emitted pixel is
    /// output `p` (in raster order) of the reference AveragePool2D of the input.
    pub proof fn lemma_pipeline_matches_reference(
        &self,
        input: &Tensor4D<T>,
        states: Seq<Self>,
        outs: Seq<Option<Seq<T>>>,
    )
        requires
            self.wf(),
            self.window.in_cycle == 0,
            self.window.out_cycle == 0,
            self.window.ring_spans_window(),
            input.wf(),
            input.batches == 1,
            input.rows == self.window.input_rows,
            input.cols == self.window.input_cols,
            input.chans == self.window.input_chans,
            is_run(*self, input, states, outs),
            stops(input, states, outs, self.window.out_rows(), self.window.out_cols()),
        ensures
            states.last().window.finished(),
            emitted(outs).len() >= self.window.total_output(),
            forall|p: int|
                0 <= p < self.window.total_output() ==> self.is_reference_output(
                    input_pixels(input),
                    p / self.window.out_cols(),
                    p % self.window.out_cols(),
                    #[trigger] emitted(outs)[p],
                ),
    {
        lemma_drain_reaches_outputs(self.window);
        let n = outs.len() as int;
        let es = emit_flags(outs);
        let ws = Seq::new(states.len(), |i: int| states[i].window);
        assert forall|i: int| 0 <= i < es.len() implies #[trigger] window_step(ws[i], ws[i + 1], es[i]) by {
            assert(states[i].push_rel(feed(input, i), states[i + 1], outs[i]));
        }
        let total_out = self.window.total_output();
        let oc = self.window.out_cols();
        assert(ws[0] == self.window);
        assert forall|i: int| 0 <= i < ws.len() implies (#[trigger] ws[i]).out_cycle <= ws[i].total_output() by {
            assert(states[i].inv());
        }
        lemma_run_progress(ws, es, n);
        lemma_run_config(ws, es, n);
        assert(states[n].window.finished()) by {
            if !states[n].finished() {
                assert(n == input.rows * input.cols + drain_limit(input, self.window.out_rows(), self.window.out_cols(), self.window.drain_extra() as int));
            }
        }
        crate::streaming_ops::stream_pipeline::lemma_emitted_count(outs, n);
        assert(outs.take(n) =~= outs);
        assert forall|p: int| 0 <= p < total_out implies self.is_reference_output(
            input_pixels(input),
            p / oc,
            p % oc,
            #[trigger] emitted(outs)[p],
        ) by {
            lemma_emission_reaches(ws, es, n, p);
            let i = choose|i: int| 0 <= i < n && #[trigger] es[i] && ws[i].out_cycle == p;
            lemma_run_config(ws, es, i);
            lemma_emitted_at(outs, i);
            let s = states[i + 1];
            let y = emitted(outs)[p];
            assert(states[i].push_rel(feed(input, i), states[i + 1], outs[i]));
            lemma_run_config(ws, es, i + 1);
            self.lemma_pipeline_pixels(input, states, outs, i + 1);
            assert(s.inv());
            assert(s.window.serves(p)) by {
                if !(s.window.buf_size() >= s.window.total_input() || s.window.filter_rows == 0
                    || s.window.filter_cols == 0) {
                    lemma_run_prompt(ws, es, i);
                }
            }
            s.lemma_streaming_matches_reference(p, y);
            assert forall|ch: int| 0 <= ch < y.len() implies self.is_reference_output_value(input_pixels(input), p / oc, p % oc, ch, #[trigger] y[ch]) by {
                assert forall|a: int, b: int|
                    #![trigger s.window.tap_row(p / oc, a), s.window.tap_col(p % oc, b)]
                    0 <= a < s.window.filter_rows && 0 <= b < s.window.filter_cols
                        && s.window.in_input(s.window.tap_row(p / oc, a), s.window.tap_col(p % oc, b))
                        implies s.window.pixels@[s.window.tap_row(p / oc, a) * s.window.input_cols + s.window.tap_col(p % oc, b)]
                        == input_pixels(input)[s.window.tap_row(p / oc, a) * s.window.input_cols + s.window.tap_col(p % oc, b)] by {
                    s.window.lemma_due_taps_see_input(p, a, b);
                }
                s.lemma_reference_agree(self, s.window.pixels@, input_pixels(input), p / oc, p % oc, ch, s.window.filter_rows as nat, 0);
                assert(s.is_reference_output_value(s.window.pixels@, p / oc, p % oc, ch, y[ch]));
            }
        }
    }

    /// The output tensor of `stream_pipeline` over a fresh AveragePool2D whose ring spans a
    /// filter window, with the operator's output dimensions, is the reference AveragePool2D of
    /// the input.
    pub proof fn lemma_pipeline_output_is_reference(&self, input: &Tensor4D<T>, output: &Tensor4D<T>)
        requires
            self.wf(),
            self.window.in_cycle == 0,
            self.window.out_cycle == 0,
            self.window.ring_spans_window(),
            input.wf(),
            input.batches == 1,
            input.rows == self.window.input_rows,
            input.cols == self.window.input_cols,
            input.chans == self.window.input_chans,
            exists|states: Seq<Self>, outs: Seq<Option<Seq<T>>>|
                {
                    &&& is_run(*self, input, states, outs)
                    &&& stops(input, states, outs, self.window.out_rows(), self.window.out_cols())
                    &&& forall|p: int|
                        0 <= p < self.window.out_rows() * self.window.out_cols() ==> #[trigger] output.pixel(0, p) == placed(
                            outs,
                            input.zero_point@[0],
                            self.window.input_chans as nat,
                            p,
                        )
                },
        ensures
            forall|p: int|
                0 <= p < self.window.total_output() ==> self.is_reference_output(
                    input_pixels(input),
                    p / self.window.out_cols(),
                    p % self.window.out_cols(),
                    #[trigger] output.pixel(0, p),
                ),
    {
        let (states, outs) = choose|states: Seq<Self>, outs: Seq<Option<Seq<T>>>|
            {
                &&& is_run(*self, input, states, outs)
                &&& stops(input, states, outs, self.window.out_rows(), self.window.out_cols())
                &&& forall|p: int|
                    0 <= p < self.window.out_rows() * self.window.out_cols() ==> #[trigger] output.pixel(0, p) == placed(
                        outs,
                        input.zero_point@[0],
                        self.window.input_chans as nat,
                        p,
                    )
            };
        self.lemma_pipeline_matches_reference(input, states, outs);
        assert forall|p: int| 0 <= p < self.window.total_output() implies self.is_reference_output(
            input_pixels(input),
            p / self.window.out_cols(),
            p % self.window.out_cols(),
            #[trigger] output.pixel(0, p),
        ) by {
            assert(output.pixel(0, p) == placed(outs, input.zero_point@[0], self.window.input_chans as nat, p));
        }
    }

    /// Creates the operator with an empty window; `buf_size` is the number of pixels that its
    /// ring keeps.
    pub fn new(
        input_rows: usize,
        input_cols: usize,
        input_chans: usize,
        filter_rows: usize,
        filter_cols: usize,
        buf_size: usize,
        input_zero_point: T,
        output_zero_point: T,
        output_relu6_limit: T,
        options: AveragePool2DOptions,
        requantize: Q,
    ) -> (op: Self)
        requires
            input_cols > 0,
            options.strides.0 > 0,
            options.strides.1 > 0,
            options.view_padding == TensorViewPadding::Same ==> filter_rows > 0 && filter_cols > 0,
            ({
                let out_rows = out_extent(options.view_padding, input_rows as int, filter_rows as int, options.strides.0 as int);
                let out_cols = out_extent(options.view_padding, input_cols as int, filter_cols as int, options.strides.1 as int);
                &&& input_rows * input_cols <= usize::MAX
                &&& out_rows * out_cols <= usize::MAX
                &&& (out_rows * options.strides.0 + filter_rows) * input_cols + out_cols
                    * options.strides.1 + filter_cols + 1 <= usize::MAX
            }),
            filter_rows * filter_cols * T::magnitude() <= i32::MAX,
            forall|sum: i32, count: usize| #[trigger] call_requires(requantize, (sum, count)),
        ensures
            op.wf(),
            op.window.input_rows == input_rows,
            op.window.input_cols == input_cols,
            op.window.input_chans == input_chans,
            op.window.filter_rows == filter_rows,
            op.window.filter_cols == filter_cols,
            op.window.buffer@.len() == buf_size,
            op.window.input_zero_point == input_zero_point,
            op.window.in_cycle == 0,
            op.window.out_cycle == 0,
            op.window.pixels@ == Seq::<Seq<T>>::empty(),
            op.output_zero_point == output_zero_point,
            op.output_relu6_limit == output_relu6_limit,
            op.options == options,
            op.requantize == requantize,
    {
        let window = StreamWindow::new(
            input_rows,
            input_cols,
            input_chans,
            filter_rows,
            filter_cols,
            buf_size,
            input_zero_point,
            options.view_padding,
            options.strides,
        );
        StreamingAveragePool2D { window, output_zero_point, output_relu6_limit, options, requantize }
    }

    /// The count and the sums stay within what the taps taken so far allow.
    proof fn lemma_window_bounds(&self, out_row: int, out_col: int, ch: int, kh: nat, kw: nat)
        requires
            self.wf(),
            kh <= self.window.filter_rows,
            kw <= self.window.filter_cols,
        ensures
            self.window_count(out_row, out_col, kh, kw) <= kh * self.window.filter_cols + kw,
            -(self.window_count(out_row, out_col, kh, kw) * T::magnitude()) <= self.window_sum(out_row, out_col, ch, kh, kw)
                <= self.window_count(out_row, out_col, kh, kw) * T::magnitude(),
        decreases kh, kw,
    {
        if kw == 0 {
            if kh > 0 {
                self.lemma_window_bounds(out_row, out_col, ch, (kh - 1) as nat, self.window.filter_cols as nat);
                assert((kh - 1) * self.window.filter_cols + self.window.filter_cols == kh * self.window.filter_cols) by (nonlinear_arith)
                    requires kh >= 1;
            }
        } else {
            self.lemma_window_bounds(out_row, out_col, ch, kh, (kw - 1) as nat);
            let r = self.window.tap_row(out_row, kh as int);
            let c = self.window.tap_col(out_col, kw - 1);
            T::lemma_value_magnitude(self.window.sees_value(r, c, ch));
            let m = T::magnitude();
            let n0 = self.window_count(out_row, out_col, kh, (kw - 1) as nat);
            assert((n0 + 1) * m == n0 * m + m) by (nonlinear_arith);
        }
    }

    /// A window's count and sums fit `i32`.
    proof fn lemma_window_fits(&self, out_row: int, out_col: int, ch: int, kh: nat, kw: nat)
        requires
            self.wf(),
            kh < self.window.filter_rows,
            kw < self.window.filter_cols,
        ensures
            self.window_count(out_row, out_col, kh, (kw + 1) as nat) <= self.window.filter_rows * self.window.filter_cols,
            -(self.window.filter_rows * self.window.filter_cols * T::magnitude()) <= self.window_sum(out_row, out_col, ch, kh, (kw + 1) as nat)
                <= self.window.filter_rows * self.window.filter_cols * T::magnitude(),
    {
        self.lemma_window_bounds(out_row, out_col, ch, kh, (kw + 1) as nat);
        let fr = self.window.filter_rows as int;
        let fc = self.window.filter_cols as int;
        let n = self.window_count(out_row, out_col, kh, (kw + 1) as nat) as int;
        assert(kh * fc + kw + 1 <= fr * fc) by (nonlinear_arith)
            requires kh < fr, kw < fc;
        T::lemma_value_magnitude(self.window.input_zero_point);
        let m = T::magnitude();
        assert(n * m <= fr * fc * m) by (nonlinear_arith)
            requires n <= fr * fc, m >= 1;
    }

    /// Computes output `(out_row, out_col)` from what the window holds.
    fn compute(&self, out_row: usize, out_col: usize) -> (y: Vec<T>)
        requires
            self.wf(),
            out_row < self.window.out_rows(),
            out_col < self.window.out_cols(),
        ensures
            self.is_output(out_row as int, out_col as int, y@),
    {
        let w = &self.window;
        proof {
            w.lemma_taps_fit(out_row as int, out_col as int);
        }
        let chans = w.input_chans;
        let center_row = out_row * w.strides.0;
        let center_col = out_col * w.strides.1;
        let mut sums: Vec<i32> = Vec::new();
        let mut ch: usize = 0;
        while ch < chans
            invariant
                ch <= chans,
                sums@.len() == ch,
                forall|k: int| 0 <= k < ch ==> #[trigger] sums@[k] == 0,
            decreases chans - ch,
        {
            sums.push(0);
            ch = ch + 1;
        }
        let mut valid_count: usize = 0;
        let mut kh: usize = 0;
        while kh < w.filter_rows
            invariant
                self.wf(),
                w == &self.window,
                chans == w.input_chans,
                center_row == out_row * w.strides.0,
                center_col == out_col * w.strides.1,
                out_row * w.strides.0 + w.filter_rows <= usize::MAX,
                out_col * w.strides.1 + w.filter_cols <= usize::MAX,
                kh <= w.filter_rows,
                sums@.len() == chans,
                valid_count == self.window_count(out_row as int, out_col as int, kh as nat, 0),
                forall|k: int|
                    0 <= k < chans ==> #[trigger] sums@[k] == self.window_sum(
                        out_row as int,
                        out_col as int,
                        k,
                        kh as nat,
                        0,
                    ),
            decreases w.filter_rows - kh,
        {
            let mut kw: usize = 0;
            while kw < w.filter_cols
                invariant
                    self.wf(),
                    w == &self.window,
                    chans == w.input_chans,
                    center_row == out_row * w.strides.0,
                    center_col == out_col * w.strides.1,
                    out_row * w.strides.0 + w.filter_rows <= usize::MAX,
                    out_col * w.strides.1 + w.filter_cols <= usize::MAX,
                    kh < w.filter_rows,
                    kw <= w.filter_cols,
                    sums@.len() == chans,
                    valid_count == self.window_count(out_row as int, out_col as int, kh as nat, kw as nat),
                    forall|k: int|
                        0 <= k < chans ==> #[trigger] sums@[k] == self.window_sum(
                            out_row as int,
                            out_col as int,
                            k,
                            kh as nat,
                            kw as nat,
                        ),
                decreases w.filter_cols - kw,
            {
                let row_pos = center_row + kh;
                let col_pos = center_col + kw;
                let ghost r = w.tap_row(out_row as int, kh as int);
                let ghost c = w.tap_col(out_col as int, kw as int);
                proof {
                    self.lemma_window_fits(out_row as int, out_col as int, 0, kh as nat, kw as nat);
                    T::lemma_value_magnitude(w.input_zero_point);
                    let ff = w.filter_rows * w.filter_cols;
                    assert(ff <= ff * T::magnitude()) by (nonlinear_arith)
                        requires ff >= 0, T::magnitude() >= 1;
                }
                if row_pos >= w.shift_rows && row_pos - w.shift_rows < w.input_rows
                    && col_pos >= w.shift_cols && col_pos - w.shift_cols < w.input_cols
                {
                    let src_row = row_pos - w.shift_rows;
                    let src_col = col_pos - w.shift_cols;
                    assert(w.in_input(r, c));
                    valid_count = valid_count + 1;
                    let slot = w.sample(src_row, src_col);
                    let ghost before = sums@;
                    let mut ch: usize = 0;
                    while ch < chans
                        invariant
                            self.wf(),
                            w == &self.window,
                            chans == w.input_chans,
                            w.in_input(r, c),
                            src_row == r,
                            src_col == c,
                            r == w.tap_row(out_row as int, kh as int),
                            c == w.tap_col(out_col as int, kw as int),
                            kh < w.filter_rows,
                            kw < w.filter_cols,
                            ch <= chans,
                            sums@.len() == chans,
                            before.len() == chans,
                            match slot {
                                Some(j) => j < w.buffer@.len() && w.sees(r, c) == Some(w.buffer@[j as int]@),
                                None => w.sees(r, c) is None,
                            },
                            forall|k: int| 0 <= k < chans ==> #[trigger] before[k] == self.window_sum(out_row as int, out_col as int, k, kh as nat, kw as nat),
                            forall|k: int| 0 <= k < ch ==> #[trigger] sums@[k] == before[k] + w.sees_value(r, c, k).value(),
                            forall|k: int| ch <= k < chans ==> #[trigger] sums@[k] == before[k],
                        decreases chans - ch,
                    {
                        let x = match slot {
                            Some(j) => w.buffer[j][ch],
                            None => w.input_zero_point,
                        };
                        proof {
                            self.lemma_window_fits(out_row as int, out_col as int, ch as int, kh as nat, kw as nat);
                            let fr = w.filter_rows as int;
                            let fc = w.filter_cols as int;
                            assert(r == self.window.tap_row(out_row as int, kh as int));
                            assert(c == self.window.tap_col(out_col as int, ((kw + 1) as nat - 1) as int));
                            assert(self.window.in_input(r, c));
                            assert(self.window_sum(out_row as int, out_col as int, ch as int, kh as nat, (kw + 1) as nat)
                                == self.window_sum(out_row as int, out_col as int, ch as int, kh as nat, kw as nat) + self.window.sees_value(r, c, ch as int).value());
                        }
                        sums[ch] = sums[ch] + x.to_i32();
                        ch = ch + 1;
                    }
                    assert forall|k: int| 0 <= k < chans implies #[trigger] sums@[k] == self.window_sum(
                        out_row as int,
                        out_col as int,
                        k,
                        kh as nat,
                        (kw + 1) as nat,
                    ) by {
                        assert(self.window_sum(out_row as int, out_col as int, k, kh as nat, (kw + 1) as nat)
                            == before[k] + w.sees_value(r, c, k).value());
                    }
                } else {
                    assert(!w.in_input(r, c));
                    assert forall|k: int| 0 <= k < chans implies #[trigger] sums@[k] == self.window_sum(
                        out_row as int,
                        out_col as int,
                        k,
                        kh as nat,
                        (kw + 1) as nat,
                    ) by {
                        assert(self.window_sum(out_row as int, out_col as int, k, kh as nat, (kw + 1) as nat)
                            == self.window_sum(out_row as int, out_col as int, k, kh as nat, kw as nat));
                    }
                }
                kw = kw + 1;
            }
            kh = kh + 1;
        }
        let mut y: Vec<T> = Vec::new();
        let mut ch: usize = 0;
        while ch < chans
            invariant
                self.wf(),
                w == &self.window,
                chans == w.input_chans,
                kh == w.filter_rows,
                ch <= chans,
                sums@.len() == chans,
                y@.len() == ch,
                valid_count == self.window_count(out_row as int, out_col as int, kh as nat, 0),
                forall|k: int|
                    0 <= k < chans ==> #[trigger] sums@[k] == self.window_sum(
                        out_row as int,
                        out_col as int,
                        k,
                        kh as nat,
                        0,
                    ),
                forall|k: int| 0 <= k < ch ==> self.is_output_value(out_row as int, out_col as int, k, #[trigger] y@[k]),
            decreases chans - ch,
        {
            proof {
                let fr = w.filter_rows as int;
                let fc = w.filter_cols as int;
                self.lemma_window_bounds(out_row as int, out_col as int, ch as int, kh as nat, 0);
                let n = self.window_count(out_row as int, out_col as int, kh as nat, 0) as int;
                T::lemma_value_magnitude(self.window.input_zero_point);
                let m = T::magnitude();
                assert(n * m <= fr * fc * m) by (nonlinear_arith)
                    requires 0 <= n <= kh * fc, kh == fr, fr >= 0, fc >= 0, m >= 1;
            }
            let r = (self.requantize)(sums[ch], valid_count);
            let v = activate(
                self.options.fused_activation,
                r,
                self.output_zero_point,
                self.output_relu6_limit,
            );
            proof {
                let full = w.filter_rows as nat;
                let sum = self.window_sum(out_row as int, out_col as int, ch as int, full, 0);
                let count = self.window_count(out_row as int, out_col as int, full, 0);
                assert(sum as i32 == sums@[ch as int]);
                assert(count as usize == valid_count);
                assert(call_ensures(self.requantize, (sum as i32, count as usize), r));
            }
            assert(self.is_output_value(out_row as int, out_col as int, ch as int, v));
            y.push(v);
            ch = ch + 1;
        }
        y
    }

    /// What one push does: the window takes `pixel`, and `out` is the output that became
    /// due, if one did, as the window sees the input after the push.
    pub open spec fn push_post(&self, pixel: Seq<T>, next: Self, out: Option<Seq<T>>) -> bool {
        let k = self.window.out_cycle as int;
        let oc = self.window.out_cols();
        &&& next.window.same_config(&self.window)
        &&& next.output_zero_point == self.output_zero_point
        &&& next.output_relu6_limit == self.output_relu6_limit
        &&& next.options == self.options
        &&& next.requantize == self.requantize
        &&& next.window.pixels@ == self.window.pixels@.push(pixel)
        &&& next.window.in_cycle == self.window.in_cycle + 1
        &&& match out {
            Some(y) => {
                &&& next.window.due(k)
                &&& next.window.out_cycle == k + 1
                &&& next.is_output(k / oc, k % oc, y)
            },
            None => {
                &&& !next.window.due(k)
                &&& next.window.out_cycle == k
            },
        }
    }

    /// A finished operator stays finished and emits nothing more.
    pub proof fn lemma_finished_stays_finished(&self, pixel: Seq<T>, next: Self, out: Option<Seq<T>>)
        requires
            self.window.finished(),
            self.push_post(pixel, next, out),
        ensures
            out is None,
            next.window.finished(),
    {
    }

    /// Takes the next input pixel and returns the output pixel that it completes, if any.
    pub fn push(&mut self, pixel: Vec<T>) -> (out: Option<Vec<T>>)
        requires
            old(self).wf(),
            pixel@.len() == old(self).window.input_chans,
            old(self).window.in_cycle < usize::MAX,
        ensures
            final(self).wf(),
            old(self).push_post(pixel@, *final(self), opt_view(out)),
    {
        let due = self.window.advance(&pixel);
        match due {
            Some((out_row, out_col)) => {
                proof {
                    self.window.lemma_required_cycles_fit(self.window.out_cycle - 1);
                }
                Some(self.compute(out_row, out_col))
            },
            None => None,
        }
    }

    /// The pixel that the operator sees at input position `(src_row, src_col)`: none for a
    /// position outside the input, one not yet pushed, or one that the ring no longer holds.
    pub fn sample(&self, src_row: isize, src_col: isize) -> (p: Option<Vec<T>>)
        requires
            self.wf(),
        ensures
            opt_view(p) == self.window.sees(src_row as int, src_col as int),
    {
        self.window.sees_pixel(src_row, src_col)
    }

    /// All outputs have been emitted.
    pub fn is_finished(&self) -> (r: bool)
        requires
            self.wf(),
        ensures
            r == self.window.finished(),
    {
        self.window.is_finished()
    }

    /// The zero point of the output.
    pub fn output_zero_point(&self) -> (zp: T)
        ensures
            zp == self.output_zero_point,
    {
        self.output_zero_point
    }
}

impl<T: Quantized, Q: Fn(i32, usize) -> T> StreamOp<T> for StreamingAveragePool2D<T, Q> {
    open spec fn inv(&self) -> bool {
        self.wf()
    }

    open spec fn in_len(&self) -> nat {
        self.window.input_chans as nat
    }

    open spec fn out_len(&self) -> nat {
        self.window.input_chans as nat
    }

    open spec fn finished(&self) -> bool {
        self.window.finished()
    }

    open spec fn room(&self) -> nat {
        (usize::MAX - self.window.in_cycle) as nat
    }

    open spec fn zero_point(&self) -> T {
        self.output_zero_point
    }

    open spec fn drain_extra(&self) -> nat {
        self.window.drain_extra()
    }

    open spec fn out_count(&self) -> nat {
        self.window.total_output() as nat
    }

    proof fn lemma_push_keeps_metadata(&self, input: Seq<T>, next: Self, out: Option<Seq<T>>) {
    }

    open spec fn push_rel(&self, input: Seq<T>, next: Self, out: Option<Seq<T>>) -> bool {
        self.push_post(input, next, out)
    }

    fn push(&mut self, input: Vec<T>) -> (out: Option<Vec<T>>) {
        StreamingAveragePool2D::push(self, input)
    }

    fn is_finished(&self) -> (r: bool) {
        self.window.is_finished()
    }

    fn output_zero_point(&self) -> (zp: T) {
        self.output_zero_point
    }

    fn drain_hint(&self) -> (n: usize) {
        self.window.drain_hint()
    }


    fn out_count_hint(&self) -> (n: usize) {
        let (rows, cols) = self.window.out_dims();
        proof {
            self.window.lemma_out_extents();
        }
        rows * cols
    }
}
/// A chain of a MaxPool2D and a Valid AveragePool2D computes the two layers in sequence:
/// with fresh operators whose rings span a filter window, the output of `stream_pipeline`
/// over the chain holds, at each position, the reference AveragePool2D of `mid`, the tensor
/// of the reference MaxPool2D outputs of the input.
pub proof fn lemma_max_pool_then_average_pool<T: Quantized, Q: Fn(i32, usize) -> T>(
    a: StreamingMaxPool2D<T>,
    b: StreamingAveragePool2D<T, Q>,
    input: &Tensor4D<T>,
    mid: &Tensor4D<T>,
    output: &Tensor4D<T>,
)
    requires
        a.wf(),
        a.window.in_cycle == 0,
        a.window.out_cycle == 0,
        a.window.ring_spans_window(),
        a.window.filter_rows >= 1,
        a.window.filter_cols >= 1,
        input.wf(),
        input.batches == 1,
        input.rows == a.window.input_rows,
        input.cols == a.window.input_cols,
        input.chans == a.window.input_chans,
        mid.wf(),
        mid.batches == 1,
        mid.rows == a.window.out_rows(),
        mid.cols == a.window.out_cols(),
        mid.chans == input.chans,
        forall|p: int|
            0 <= p < mid.rows * mid.cols ==> #[trigger] mid.pixel(0, p) == a.reference_pooled(
                input_pixels(input),
                p / a.window.out_cols(),
                p % a.window.out_cols(),
            ),
        b.wf(),
        b.window.in_cycle == 0,
        b.window.out_cycle == 0,
        b.window.ring_spans_window(),
        b.window.view_padding == TensorViewPadding::Valid,
        1 <= b.window.filter_rows <= mid.rows,
        1 <= b.window.filter_cols <= mid.cols,
        mid.rows == b.window.input_rows,
        mid.cols == b.window.input_cols,
        mid.chans == b.window.input_chans,
        a.window.drain_extra() + b.window.drain_extra() <= usize::MAX,
        exists|states: Seq<Chain<StreamingMaxPool2D<T>, StreamingAveragePool2D<T, Q>>>, outs: Seq<Option<Seq<T>>>|
            {
                &&& is_run(Chain { a, b }, input, states, outs)
                &&& stops(input, states, outs, b.window.out_rows(), b.window.out_cols())
                &&& forall|p: int|
                    0 <= p < b.window.total_output() ==> #[trigger] output.pixel(0, p) == placed(
                        outs,
                        input.zero_point@[0],
                        input.chans as nat,
                        p,
                    )
            },
    ensures
        forall|p: int|
            0 <= p < b.window.total_output() ==> b.is_reference_output(
                input_pixels(mid),
                p / b.window.out_cols(),
                p % b.window.out_cols(),
                #[trigger] output.pixel(0, p),
            ),
{
    let a_total = a.window.total_output();
    a.lemma_emits_reference(input);
    b.lemma_emits_reference(mid);
    lemma_emits_as_weaken(a, input, (mid.rows * mid.cols) as nat, a.reference_relation(input), is_pixel_of(mid));
    lemma_total_output_bound(a.window);
    b.window.lemma_out_extents();
    let b_rows = b.window.out_rows();
    let b_cols = b.window.out_cols();
    assert(b_rows * b_cols >= 0) by (nonlinear_arith)
        requires b_rows >= 0, b_cols >= 1;
    assert(a_total >= 1) by (nonlinear_arith)
        requires a_total == mid.rows * mid.cols, mid.rows >= 1, mid.cols >= 1;
    assert(Chain { a, b }.drain_extra() == a.window.drain_extra() + b.window.drain_extra());
    let m = ((input.rows + a.window.filter_rows) * input.cols + a.window.filter_cols + a_total) as nat;
    assert(m <= input.rows * input.cols + drain_limit(
        input,
        b_rows,
        b_cols,
        Chain { a, b }.drain_extra() as int,
    )) by {
        assert(a_total > 0 ==> a.window.drain_extra() == (a.window.filter_rows + 1) * a.window.input_cols
            + a.window.filter_cols + 1);
        assert(a_total <= input.rows * input.cols + input.cols);
        assert((input.rows + a.window.filter_rows) * input.cols == input.rows * input.cols + a.window.filter_rows
            * input.cols) by (nonlinear_arith);
        assert((a.window.filter_rows + 1) * input.cols == a.window.filter_rows * input.cols + input.cols)
            by (nonlinear_arith);
    }
    assert(b.window.total_output() == b_rows * b_cols);
    lemma_chain_pipeline_in_sequence(
        a,
        b,
        input,
        mid,
        output,
        b_rows as nat,
        b_cols as nat,
        input.chans as nat,
        b.reference_relation(mid),
        m,
    );
    assert forall|p: int| 0 <= p < b.window.total_output() implies b.is_reference_output(
        input_pixels(mid),
        p / b.window.out_cols(),
        p % b.window.out_cols(),
        #[trigger] output.pixel(0, p),
    ) by {
        assert(b.reference_relation(mid)(p, output.pixel(0, p)));
    }
}

/// How many of the `len` positions `start, start + 1, ..., start + len - 1` lie in
/// `0..bound`.
pub open spec fn span_overlap(start: int, len: int, bound: int) -> int {
    let lo = if start > 0 { start } else { 0 };
    let hi = if start + len < bound { start + len } else { bound };
    if hi > lo { hi - lo } else { 0 }
}

/// An empty span overlaps nothing.
pub proof fn lemma_span_overlap_empty(start: int, bound: int)
    ensures
        span_overlap(start, 0, bound) == 0,
{
}

/// Lengthening a span by one position adds one exactly when that position is in `0..bound`.
pub proof fn lemma_span_overlap_step(start: int, len: int, bound: int)
    requires
        len >= 0,
        bound >= 0,
    ensures
        span_overlap(start, len + 1, bound) == span_overlap(start, len, bound) + if 0 <= start + len < bound {
            1int
        } else {
            0int
        },
{
}

} // verus!
