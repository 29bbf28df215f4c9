//! Streaming MaxPool2D: the channel-wise maximum over each filter window.
use vstd::prelude::*;

use crate::activation::{activate, spec_activate};
use crate::ops_options::MaxPool2DOptions;
use crate::quantize::Quantized;
use crate::streaming_ops::stream_op::{opt_view, StreamOp};
use crate::streaming_ops::schedule::{
    lemma_drain_reaches_outputs, lemma_emission_reaches, lemma_max_required_bounds, lemma_run_caught_up, lemma_run_config, lemma_run_finishes, lemma_run_prompt, lemma_valid_outputs_due_on_input,
    lemma_run_progress, max_required, window_run, window_step,
};
use crate::streaming_ops::stream_pipeline::{
    drain_limit, emit_flags, emits_as, emitted, feed, feed_prefix, finishes_on_input, finishes_within, input_pixels, is_run, lemma_emitted_at,
    placed, stops,
};
use crate::streaming_ops::window::{copy_pixel, filled_pixel, zero_pixel, StreamWindow};
use crate::tensor::{Tensor4D, TensorViewPadding};

verus! {

/// A MaxPool2D operator that takes its input one pixel at a time.
pub struct StreamingMaxPool2D<T> {
    /// The sliding window over the input.
    pub window: StreamWindow<T>,
    pub output_zero_point: T,
    /// 6.0 quantized with the output's scale and zero point: the ceiling of ReLU6.
    pub output_relu6_limit: T,
    pub options: MaxPool2DOptions,
}

/// Folds one tap into a running maximum: the first tap seen starts it.
pub open spec fn max_step<T: Quantized>(acc: Option<T>, x: T) -> Option<T> {
    match acc {
        None => Some(x),
        Some(m) => Some(
            if x.value() > m.value() {
                x
            } else {
                m
            },
        ),
    }
}

impl<T: Quantized> StreamingMaxPool2D<T> {
    /// Well-formedness: a well-formed window configured as the options say.
    pub open spec fn wf(&self) -> bool {
        &&& self.window.wf()
        &&& self.window.view_padding == self.options.view_padding
        &&& self.window.strides == self.options.strides
    }

    /// The maximum of channel `ch` over the taps of output `(out_row, out_col)` that lie
    /// inside the input, taken over all rows before `kh` and the first `kw` taps of row `kh`;
    /// `None` while no tap inside the input has been taken.
    pub open spec fn window_max(&self, out_row: int, out_col: int, ch: int, kh: nat, kw: nat) -> Option<
        T,
    >
        decreases kh, kw,
    {
        if kw == 0 {
            if kh == 0 {
                None
            } else {
                self.window_max(out_row, out_col, ch, (kh - 1) as nat, self.window.filter_cols as nat)
            }
        } else {
            let prev = self.window_max(out_row, out_col, ch, kh, (kw - 1) as nat);
            let r = self.window.tap_row(out_row, kh as int);
            let c = self.window.tap_col(out_col, kw - 1);
            if self.window.in_input(r, c) {
                max_step(prev, self.window.sees_value(r, c, ch))
            } else {
                prev
            }
        }
    }

    /// Channel `ch` of output `(out_row, out_col)`: the activated maximum over the window,
    /// the input zero point where the window holds no input pixel.
    pub open spec fn pooled_value(&self, out_row: int, out_col: int, ch: int) -> T {
        let m = match self.window_max(out_row, out_col, ch, self.window.filter_rows as nat, 0) {
            Some(v) => v,
            None => self.window.input_zero_point,
        };
        spec_activate(
            self.options.fused_activation,
            m,
            self.output_zero_point,
            self.output_relu6_limit,
        )
    }

    /// Output pixel `(out_row, out_col)` as the window sees the input now.
    pub open spec fn pooled(&self, out_row: int, out_col: int) -> Seq<T> {
        Seq::new(
            self.window.input_chans as nat,
            |ch: int| self.pooled_value(out_row, out_col, ch),
        )
    }

    /// The reference (whole-tensor) MaxPool2D fold: as `window_max`, but over the input
    /// pixels themselves, `input[r * cols + c]`.
    pub open spec fn reference_max(
        &self,
        input: Seq<Seq<T>>,
        out_row: int,
        out_col: int,
        ch: int,
        kh: nat,
        kw: nat,
    ) -> Option<T>
        decreases kh, kw,
    {
        if kw == 0 {
            if kh == 0 {
                None
            } else {
                self.reference_max(input, out_row, out_col, ch, (kh - 1) as nat, self.window.filter_cols as nat)
            }
        } else {
            let prev = self.reference_max(input, out_row, out_col, ch, kh, (kw - 1) as nat);
            let r = self.window.tap_row(out_row, kh as int);
            let c = self.window.tap_col(out_col, kw - 1);
            if self.window.in_input(r, c) {
                max_step(prev, input[r * self.window.input_cols + c][ch])
            } else {
                prev
            }
        }
    }

    /// Output pixel `(out_row, out_col)` of the reference MaxPool2D of `input`.
    pub open spec fn reference_pooled(&self, input: Seq<Seq<T>>, out_row: int, out_col: int) -> Seq<T> {
        Seq::new(
            self.window.input_chans as nat,
            |ch: int| {
                let m = match self.reference_max(input, out_row, out_col, ch, self.window.filter_rows as nat, 0) {
                    Some(v) => v,
                    None => self.window.input_zero_point,
                };
                spec_activate(self.options.fused_activation, m, self.output_zero_point, self.output_relu6_limit)
            },
        )
    }

    proof fn lemma_window_max_is_reference(&self, k: int, ch: int, kh: nat, kw: nat)
        requires
            self.wf(),
            0 <= k < self.window.total_output(),
            self.window.due(k) || self.window.in_cycle >= self.window.total_input(),
            self.window.serves(k),
            kh <= self.window.filter_rows,
            kw <= self.window.filter_cols,
            kh == self.window.filter_rows ==> kw == 0,
        ensures
            self.window_max(k / self.window.out_cols(), k % self.window.out_cols(), ch, kh, kw)
                == self.reference_max(self.window.pixels@, k / self.window.out_cols(), k % self.window.out_cols(), ch, kh, kw),
        decreases kh, kw,
    {
        let oc = self.window.out_cols();
        if kw == 0 {
            if kh > 0 {
                self.lemma_window_max_is_reference(k, ch, (kh - 1) as nat, self.window.filter_cols as nat);
            }
        } else {
            self.lemma_window_max_is_reference(k, ch, kh, (kw - 1) as nat);
            let r = self.window.tap_row(k / oc, kh as int);
            let c = self.window.tap_col(k % oc, kw - 1);
            if self.window.in_input(r, c) {
                self.window.lemma_due_taps_see_input(k, kh as int, kw - 1);
            }
        }
    }

    /// Streaming gives the reference result: when the ring serves the output (`serves`), the
    /// output that a push emits is the reference MaxPool2D of the pixels pushed, at that
    /// output's position.
    pub proof fn lemma_streaming_matches_reference(&self, k: int)
        requires
            self.wf(),
            0 <= k < self.window.total_output(),
            self.window.due(k) || self.window.in_cycle >= self.window.total_input(),
            self.window.serves(k),
        ensures
            self.pooled(k / self.window.out_cols(), k % self.window.out_cols())
                == self.reference_pooled(self.window.pixels@, k / self.window.out_cols(), k % self.window.out_cols()),
    {
        let oc = self.window.out_cols();
        assert forall|ch: int| 0 <= ch < self.window.input_chans implies #[trigger] self.pooled(k / oc, k % oc)[ch]
            == self.reference_pooled(self.window.pixels@, k / oc, k % oc)[ch] by {
            self.lemma_window_max_is_reference(k, ch, self.window.filter_rows as nat, 0);
        }
        assert(self.pooled(k / oc, k % oc) =~= self.reference_pooled(self.window.pixels@, k / oc, k % oc));
    }

    /// The reference fold reads the input only at the taps of the output that lie inside the
    /// input, and depends on the operator only through its configuration.
    proof fn lemma_reference_max_agree(
        &self,
        other: &Self,
        a: Seq<Seq<T>>,
        b: Seq<Seq<T>>,
        out_row: int,
        out_col: int,
        ch: int,
        kh: nat,
        kw: nat,
    )
        requires
            other.window.same_config(&self.window),
            kh <= self.window.filter_rows,
            kw <= self.window.filter_cols,
            kh == self.window.filter_rows ==> kw == 0,
            forall|i: int, j: int|
                #![trigger self.window.tap_row(out_row, i), self.window.tap_col(out_col, j)]
                0 <= i < self.window.filter_rows && 0 <= j < self.window.filter_cols
                    && self.window.in_input(self.window.tap_row(out_row, i), self.window.tap_col(out_col, j))
                    ==> a[self.window.tap_row(out_row, i) * self.window.input_cols + self.window.tap_col(out_col, j)]
                    == b[self.window.tap_row(out_row, i) * self.window.input_cols + self.window.tap_col(out_col, j)],
        ensures
            self.reference_max(a, out_row, out_col, ch, kh, kw) == other.reference_max(b, out_row, out_col, ch, kh, kw),
        decreases kh, kw,
    {
        if kw == 0 {
            if kh > 0 {
                self.lemma_reference_max_agree(other, a, b, out_row, out_col, ch, (kh - 1) as nat, self.window.filter_cols as nat);
            }
        } else {
            self.lemma_reference_max_agree(other, a, b, out_row, out_col, ch, kh, (kw - 1) as nat);
            let i = kh as int;
            let j = kw - 1;
            if self.window.in_input(self.window.tap_row(out_row, i), self.window.tap_col(out_col, j)) {
                assert(a[self.window.tap_row(out_row, i) * self.window.input_cols + self.window.tap_col(out_col, j)]
                    == b[self.window.tap_row(out_row, i) * self.window.input_cols + self.window.tap_col(out_col, j)]);
            }
        }
    }

    /// The windows of a pipeline run of this operator form a window run, and each holds the
    /// pixels fed so far.
    proof fn lemma_pipeline_window_run(
        &self,
        input: &Tensor4D<T>,
        states: Seq<Self>,
        outs: Seq<Option<Seq<T>>>,
    ) -> (ws: Seq<StreamWindow<T>>)
        requires
            self.wf(),
            self.window.in_cycle == 0,
            is_run(*self, input, states, outs),
        ensures
            ws.len() == states.len(),
            forall|i: int| 0 <= i < states.len() ==> #[trigger] ws[i] == states[i].window,
            window_run(ws, emit_flags(outs)),
            forall|i: int| 0 <= i < states.len() ==> (#[trigger] states[i]).window.pixels@ == feed_prefix(input, i as nat),
            forall|i: int| 0 <= i < states.len() ==> (#[trigger] states[i]).output_zero_point == self.output_zero_point
                && states[i].output_relu6_limit == self.output_relu6_limit && states[i].options == self.options,
    {
        let ws = Seq::new(states.len(), |i: int| states[i].window);
        let es = emit_flags(outs);
        assert forall|i: int| 0 <= i < es.len() implies #[trigger] window_step(ws[i], ws[i + 1], es[i]) by {
            assert(states[i].push_rel(feed(input, i), states[i + 1], outs[i]));
        }
        assert forall|i: int| 0 <= i < states.len() implies (#[trigger] states[i]).window.pixels@ == feed_prefix(input, i as nat)
            && states[i].output_zero_point == self.output_zero_point
            && states[i].output_relu6_limit == self.output_relu6_limit && states[i].options == self.options by {
            self.lemma_pipeline_pixels(input, states, outs, i);
        }
        ws
    }

    proof fn lemma_pipeline_pixels(&self, input: &Tensor4D<T>, states: Seq<Self>, outs: Seq<Option<Seq<T>>>, i: int)
        requires
            self.wf(),
            self.window.in_cycle == 0,
            is_run(*self, input, states, outs),
            0 <= i < states.len(),
        ensures
            states[i].window.pixels@ == feed_prefix(input, i as nat),
            states[i].output_zero_point == self.output_zero_point,
            states[i].output_relu6_limit == self.output_relu6_limit,
            states[i].options == self.options,
        decreases i,
    {
        if i == 0 {
            assert(self.window.pixels@ =~= feed_prefix(input, 0));
        } else {
            self.lemma_pipeline_pixels(input, states, outs, i - 1);
            let j = i - 1;
            assert(states[j].push_rel(feed(input, j), states[j + 1], outs[j]));
            assert(states[i].window.pixels@ =~= feed_prefix(input, i as nat));
        }
    }

    proof fn lemma_run_emissions(
        &self,
        input: &Tensor4D<T>,
        states: Seq<Self>,
        outs: Seq<Option<Seq<T>>>,
    )
        requires
            self.wf(),
            self.window.in_cycle == 0,
            self.window.out_cycle == 0,
            self.window.ring_spans_window(),
            input.wf(),
            input.batches == 1,
            input.rows == self.window.input_rows,
            input.cols == self.window.input_cols,
            input.chans == self.window.input_chans,
            is_run(*self, input, states, outs),
        ensures
            emitted(outs).len() == states.last().window.out_cycle,
            states.last().window.out_cycle <= self.window.total_output(),
            states.last().finished() ==> emitted(outs).len() == self.window.total_output(),
            forall|p: int|
                0 <= p < emitted(outs).len() ==> #[trigger] emitted(outs)[p] == self.reference_pooled(
                    input_pixels(input),
                    p / self.window.out_cols(),
                    p % self.window.out_cols(),
                ),
    {
        let n = outs.len() as int;
        let es = emit_flags(outs);
        let ws = self.lemma_pipeline_window_run(input, states, outs);
        let total_out = self.window.total_output();
        let oc = self.window.out_cols();
        assert(ws[0] == self.window);
        assert forall|i: int| 0 <= i < ws.len() implies (#[trigger] ws[i]).out_cycle <= ws[i].total_output() by {
            assert(states[i].inv());
        }
        lemma_run_config(ws, es, n);
        crate::streaming_ops::stream_pipeline::lemma_emitted_count(outs, n);
        assert(states[n].inv());
        assert(states.last() == states[n]);
        assert(outs.take(n) =~= outs);
        assert forall|p: int| 0 <= p < emitted(outs).len() implies #[trigger] emitted(outs)[p] == self.reference_pooled(
            input_pixels(input),
            p / oc,
            p % oc,
        ) by {
            lemma_emission_reaches(ws, es, n, p);
            let i = choose|i: int| 0 <= i < n && #[trigger] es[i] && ws[i].out_cycle == p;
            lemma_run_config(ws, es, i);
            lemma_emitted_at(outs, i);
            let s = states[i + 1];
            assert(states[i].push_rel(feed(input, i), states[i + 1], outs[i]));
            lemma_run_config(ws, es, i + 1);
            assert(s.inv());
            assert(s.window.serves(p)) by {
                if !(s.window.buf_size() >= s.window.total_input() || s.window.filter_rows == 0
                    || s.window.filter_cols == 0) {
                    lemma_run_prompt(ws, es, i);
                }
            }
            s.lemma_streaming_matches_reference(p);
            assert forall|ch: int| 0 <= ch < self.window.input_chans implies
                s.reference_pooled(s.window.pixels@, p / oc, p % oc)[ch]
                == #[trigger] self.reference_pooled(input_pixels(input), p / oc, p % oc)[ch] by {
                assert forall|a: int, b: int|
                    #![trigger s.window.tap_row(p / oc, a), s.window.tap_col(p % oc, b)]
                    0 <= a < s.window.filter_rows && 0 <= b < s.window.filter_cols
                        && s.window.in_input(s.window.tap_row(p / oc, a), s.window.tap_col(p % oc, b))
                        implies s.window.pixels@[s.window.tap_row(p / oc, a) * s.window.input_cols + s.window.tap_col(p % oc, b)]
                        == input_pixels(input)[s.window.tap_row(p / oc, a) * s.window.input_cols + s.window.tap_col(p % oc, b)] by {
                    s.window.lemma_due_taps_see_input(p, a, b);
                }
                s.lemma_reference_max_agree(self, s.window.pixels@, input_pixels(input), p / oc, p % oc, ch, s.window.filter_rows as nat, 0);
            }
            assert(s.reference_pooled(s.window.pixels@, p / oc, p % oc) =~= self.reference_pooled(input_pixels(input), p / oc, p % oc));
        }
    }

    /// The relation "`y` is output `p` (in raster order) of the reference over `input`".
    pub open spec fn reference_relation(self, input: &Tensor4D<T>) -> spec_fn(int, Seq<T>) -> bool {
        |p: int, y: Seq<T>| y == self.reference_pooled(input_pixels(input), p / self.window.out_cols(), p % self.window.out_cols())
    }

    /// Every run of a fresh MaxPool2D whose ring spans a filter window, over any input of its
    /// shape, emits its outputs in raster order, each the reference MaxPool2D of the input at
    /// its position, all of them once it is finished. It finishes within the pipeline's
    /// feed and drain; within `(rows + filter_rows) * cols + filter_cols` pushes plus one per
    /// output when its filter has taps; and within its input alone when every output needs
    /// only input pixels, as with Valid padding and a filter that fits the input.
    pub proof fn lemma_emits_reference(&self, input: &Tensor4D<T>)
        requires
            self.wf(),
            self.window.in_cycle == 0,
            self.window.out_cycle == 0,
            self.window.ring_spans_window(),
            input.wf(),
            input.batches == 1,
            input.rows == self.window.input_rows,
            input.cols == self.window.input_cols,
            input.chans == self.window.input_chans,
        ensures
            emits_as(*self, input, self.window.total_output() as nat, self.reference_relation(input)),
            finishes_within(
                *self,
                input,
                (input.rows * input.cols + drain_limit(input, self.window.out_rows(), self.window.out_cols(), self.window.drain_extra() as int)) as nat,
            ),
            self.window.filter_cols >= 1 && max_required(self.window, self.window.total_output() as nat)
                <= self.window.total_input() ==> finishes_on_input(*self, input),
            self.window.view_padding == TensorViewPadding::Valid && 1 <= self.window.filter_rows <= input.rows
                && 1 <= self.window.filter_cols <= input.cols ==> finishes_on_input(*self, input),
            self.window.filter_rows >= 1 && self.window.filter_cols >= 1 ==> finishes_within(
                *self,
                input,
                ((input.rows + self.window.filter_rows) * input.cols + self.window.filter_cols
                    + self.window.total_output()) as nat,
            ),
    {
        let total_out = self.window.total_output();
        self.window.lemma_out_extents();
        assert(total_out >= 0) by (nonlinear_arith)
            requires total_out == self.window.out_rows() * self.window.out_cols(), self.window.out_rows() >= 0, self.window.out_cols() >= 1;
        assert forall|states: Seq<Self>, outs: Seq<Option<Seq<T>>>|
            #[trigger] is_run(*self, input, states, outs) implies {
                &&& emitted(outs).len() <= total_out as nat
                &&& forall|p: int| 0 <= p < emitted(outs).len() ==> self.reference_relation(input)(p, #[trigger] emitted(outs)[p])
                &&& states.last().finished() ==> emitted(outs).len() == total_out as nat
            } by {
            self.lemma_run_emissions(input, states, outs);
            assert forall|p: int| 0 <= p < emitted(outs).len() implies self.reference_relation(input)(p, #[trigger] emitted(outs)[p]) by {
                assert(self.reference_relation(input)(p, emitted(outs)[p]));
            }
        }
        let m = (input.rows * input.cols + drain_limit(input, self.window.out_rows(), self.window.out_cols(), self.window.drain_extra() as int)) as nat;
        assert forall|states: Seq<Self>, outs: Seq<Option<Seq<T>>>|
            #[trigger] is_run(*self, input, states, outs) && outs.len() >= m implies states.last().finished() by {
            lemma_drain_reaches_outputs(self.window);
            let n = outs.len() as int;
            let es = emit_flags(outs);
            let ws = self.lemma_pipeline_window_run(input, states, outs);
            assert(ws[0] == self.window);
            assert forall|i: int| 0 <= i < ws.len() implies (#[trigger] ws[i]).out_cycle <= ws[i].total_output() by {
                assert(states[i].inv());
            }
            lemma_run_progress(ws, es, n);
            lemma_run_config(ws, es, n);
            assert(states.last() == states[n]);
        }
        if self.window.filter_rows >= 1 && self.window.filter_cols >= 1 {
            let tight = ((input.rows + self.window.filter_rows) * input.cols + self.window.filter_cols + total_out) as nat;
            assert forall|states: Seq<Self>, outs: Seq<Option<Seq<T>>>|
                #[trigger] is_run(*self, input, states, outs) && outs.len() >= tight implies states.last().finished() by {
                let n = outs.len() as int;
                let es = emit_flags(outs);
                let ws = self.lemma_pipeline_window_run(input, states, outs);
                assert(ws[0] == self.window);
                assert forall|i: int| 0 <= i < ws.len() implies (#[trigger] ws[i]).out_cycle <= ws[i].total_output() by {
                    assert(states[i].inv());
                }
                lemma_run_finishes(ws, es, n);
                lemma_run_config(ws, es, n);
                assert(states.last() == states[n]);
            }
        }
        if self.window.view_padding == TensorViewPadding::Valid && 1 <= self.window.filter_rows <= input.rows
            && 1 <= self.window.filter_cols <= input.cols {
            lemma_valid_outputs_due_on_input(self.window, total_out as nat);
        }
        if self.window.filter_cols >= 1 && max_required(self.window, total_out as nat) <= self.window.total_input() {
            assert forall|states: Seq<Self>, outs: Seq<Option<Seq<T>>>|
                #[trigger] is_run(*self, input, states, outs) && outs.len() >= input.rows * input.cols implies states.last().finished() by {
                let n = outs.len() as int;
                let es = emit_flags(outs);
                let ws = self.lemma_pipeline_window_run(input, states, outs);
                assert(ws[0] == self.window);
                lemma_run_caught_up(ws, es, n);
                lemma_run_config(ws, es, n);
                assert(states.last() == states[n]);
                assert(states[n].inv());
                let k = ws[n].out_cycle as int;
                if k < total_out {
                    lemma_max_required_bounds(self.window, total_out as nat, k);
                }
            }
        }
    }

    /// Streaming MaxPool2D over a whole tensor gives the reference MaxPool2D: in every run of
    /// the pipeline with a fresh operator whose ring spans a filter window (as the ring sizes
    /// that the compiler picks do), the operator finishes and its `p`-th emitted pixel is
    /// output `p` (in raster order) of the reference MaxPool2D of the input.
    pub proof fn lemma_pipeline_matches_reference(
        &self,
        input: &Tensor4D<T>,
        states: Seq<Self>,
        outs: Seq<Option<Seq<T>>>,
    )
        requires
            self.wf(),
            self.window.in_cycle == 0,
            self.window.out_cycle == 0,
            self.window.ring_spans_window(),
            input.wf(),
            input.batches == 1,
            input.rows == self.window.input_rows,
            input.cols == self.window.input_cols,
            input.chans == self.window.input_chans,
            is_run(*self, input, states, outs),
            stops(input, states, outs, self.window.out_rows(), self.window.out_cols()),
        ensures
            states.last().window.finished(),
            emitted(outs).len() >= self.window.total_output(),
            forall|p: int|
                0 <= p < self.window.total_output() ==> #[trigger] emitted(outs)[p] == self.reference_pooled(
                    input_pixels(input),
                    p / self.window.out_cols(),
                    p % self.window.out_cols(),
                ),
    {
        lemma_drain_reaches_outputs(self.window);
        let n = outs.len() as int;
        let es = emit_flags(outs);
        let ws = self.lemma_pipeline_window_run(input, states, outs);
        let total_out = self.window.total_output();
        let oc = self.window.out_cols();
        assert(ws[0] == self.window);
        assert forall|i: int| 0 <= i < ws.len() implies (#[trigger] ws[i]).out_cycle <= ws[i].total_output() by {
            assert(states[i].inv());
        }
        lemma_run_progress(ws, es, n);
        lemma_run_config(ws, es, n);
        assert(states[n].window.finished()) by {
            if !states[n].finished() {
                assert(n == input.rows * input.cols + drain_limit(input, self.window.out_rows(), self.window.out_cols(), self.window.drain_extra() as int));
            }
        }
        assert(ws[n].out_cycle >= total_out);
        crate::streaming_ops::stream_pipeline::lemma_emitted_count(outs, n);
        assert(outs.take(n) =~= outs);
        assert forall|p: int| 0 <= p < total_out implies #[trigger] emitted(outs)[p] == self.reference_pooled(
            input_pixels(input),
            p / oc,
            p % oc,
        ) by {
            lemma_emission_reaches(ws, es, n, p);
            let i = choose|i: int| 0 <= i < n && #[trigger] es[i] && ws[i].out_cycle == p;
            lemma_run_config(ws, es, i);
            lemma_emitted_at(outs, i);
            let s = states[i + 1];
            assert(states[i].push_rel(feed(input, i), states[i + 1], outs[i]));
            lemma_run_config(ws, es, i + 1);
            assert(s.inv());
            assert(s.window.serves(p)) by {
                if !(s.window.buf_size() >= s.window.total_input() || s.window.filter_rows == 0
                    || s.window.filter_cols == 0) {
                    lemma_run_prompt(ws, es, i);
                }
            }
            s.lemma_streaming_matches_reference(p);
            assert forall|ch: int| 0 <= ch < self.window.input_chans implies
                s.reference_pooled(s.window.pixels@, p / oc, p % oc)[ch]
                == #[trigger] self.reference_pooled(input_pixels(input), p / oc, p % oc)[ch] by {
                assert forall|a: int, b: int|
                    #![trigger s.window.tap_row(p / oc, a), s.window.tap_col(p % oc, b)]
                    0 <= a < s.window.filter_rows && 0 <= b < s.window.filter_cols
                        && s.window.in_input(s.window.tap_row(p / oc, a), s.window.tap_col(p % oc, b))
                        implies s.window.pixels@[s.window.tap_row(p / oc, a) * s.window.input_cols + s.window.tap_col(p % oc, b)]
                        == input_pixels(input)[s.window.tap_row(p / oc, a) * s.window.input_cols + s.window.tap_col(p % oc, b)] by {
                    s.window.lemma_due_taps_see_input(p, a, b);
                }
                s.lemma_reference_max_agree(self, s.window.pixels@, input_pixels(input), p / oc, p % oc, ch, s.window.filter_rows as nat, 0);
            }
            assert(s.reference_pooled(s.window.pixels@, p / oc, p % oc) =~= self.reference_pooled(input_pixels(input), p / oc, p % oc));
        }
    }

    /// The output tensor of `stream_pipeline` over a fresh MaxPool2D whose ring spans a filter
    /// window, with the operator's output dimensions, is the reference MaxPool2D of the input.
    pub proof fn lemma_pipeline_output_is_reference(&self, input: &Tensor4D<T>, output: &Tensor4D<T>)
        requires
            self.wf(),
            self.window.in_cycle == 0,
            self.window.out_cycle == 0,
            self.window.ring_spans_window(),
            input.wf(),
            input.batches == 1,
            input.rows == self.window.input_rows,
            input.cols == self.window.input_cols,
            input.chans == self.window.input_chans,
            exists|states: Seq<Self>, outs: Seq<Option<Seq<T>>>|
                {
                    &&& is_run(*self, input, states, outs)
                    &&& stops(input, states, outs, self.window.out_rows(), self.window.out_cols())
                    &&& forall|p: int|
                        0 <= p < self.window.out_rows() * self.window.out_cols() ==> #[trigger] output.pixel(0, p) == placed(
                            outs,
                            input.zero_point@[0],
                            self.window.input_chans as nat,
                            p,
                        )
                },
        ensures
            forall|p: int|
                0 <= p < self.window.total_output() ==> #[trigger] output.pixel(0, p) == self.reference_pooled(
                    input_pixels(input),
                    p / self.window.out_cols(),
                    p % self.window.out_cols(),
                ),
    {
        let (states, outs) = choose|states: Seq<Self>, outs: Seq<Option<Seq<T>>>|
            {
                &&& is_run(*self, input, states, outs)
                &&& stops(input, states, outs, self.window.out_rows(), self.window.out_cols())
                &&& forall|p: int|
                    0 <= p < self.window.out_rows() * self.window.out_cols() ==> #[trigger] output.pixel(0, p) == placed(
                        outs,
                        input.zero_point@[0],
                        self.window.input_chans as nat,
                        p,
                    )
            };
        self.lemma_pipeline_matches_reference(input, states, outs);
        assert forall|p: int| 0 <= p < self.window.total_output() implies #[trigger] output.pixel(0, p)
            == self.reference_pooled(input_pixels(input), p / self.window.out_cols(), p % self.window.out_cols()) by {
            assert(output.pixel(0, p) == placed(outs, input.zero_point@[0], self.window.input_chans as nat, p));
        }
    }

    /// Creates the operator with an empty window; `buf_size` is the number of pixels that its
    /// ring keeps.
    pub fn new(
        input_rows: usize,
        input_cols: usize,
        input_chans: usize,
        filter_rows: usize,
        filter_cols: usize,
        buf_size: usize,
        input_zero_point: T,
        output_zero_point: T,
        output_relu6_limit: T,
        options: MaxPool2DOptions,
    ) -> (op: Self)
        requires
            input_cols > 0,
            options.strides.0 > 0,
            options.strides.1 > 0,
            options.view_padding == crate::tensor::TensorViewPadding::Same ==> filter_rows > 0
                && filter_cols > 0,
            ({
                let out_rows = crate::streaming_ops::window::out_extent(options.view_padding, input_rows as int, filter_rows as int, options.strides.0 as int);
                let out_cols = crate::streaming_ops::window::out_extent(options.view_padding, input_cols as int, filter_cols as int, options.strides.1 as int);
                &&& input_rows * input_cols <= usize::MAX
                &&& out_rows * out_cols <= usize::MAX
                &&& (out_rows * options.strides.0 + filter_rows) * input_cols + out_cols
                    * options.strides.1 + filter_cols + 1 <= usize::MAX
            }),
        ensures
            op.wf(),
            op.window.input_rows == input_rows,
            op.window.input_cols == input_cols,
            op.window.input_chans == input_chans,
            op.window.filter_rows == filter_rows,
            op.window.filter_cols == filter_cols,
            op.window.buffer@.len() == buf_size,
            op.window.input_zero_point == input_zero_point,
            op.window.in_cycle == 0,
            op.window.out_cycle == 0,
            op.window.pixels@ == Seq::<Seq<T>>::empty(),
            op.output_zero_point == output_zero_point,
            op.output_relu6_limit == output_relu6_limit,
            op.options == options,
    {
        let window = StreamWindow::new(
            input_rows,
            input_cols,
            input_chans,
            filter_rows,
            filter_cols,
            buf_size,
            input_zero_point,
            options.view_padding,
            options.strides,
        );
        StreamingMaxPool2D { window, output_zero_point, output_relu6_limit, options }
    }

    /// Computes output `(out_row, out_col)` from what the window holds.
    fn compute(&self, out_row: usize, out_col: usize) -> (y: Vec<T>)
        requires
            self.wf(),
            out_row < self.window.out_rows(),
            out_col < self.window.out_cols(),
        ensures
            y@ == self.pooled(out_row as int, out_col as int),
    {
        let w = &self.window;
        proof {
            w.lemma_taps_fit(out_row as int, out_col as int);
        }
        let chans = w.input_chans;
        let center_row = out_row * w.strides.0;
        let center_col = out_col * w.strides.1;
        let mut maxes = filled_pixel(w.input_zero_point, chans);
        let mut seen = false;
        let mut kh: usize = 0;
        while kh < w.filter_rows
            invariant
                self.wf(),
                w == &self.window,
                chans == w.input_chans,
                center_row == out_row * w.strides.0,
                center_col == out_col * w.strides.1,
                out_row * w.strides.0 + w.filter_rows <= usize::MAX,
                out_col * w.strides.1 + w.filter_cols <= usize::MAX,
                kh <= w.filter_rows,
                maxes@.len() == chans,
                forall|ch: int|
                    0 <= ch < chans ==> #[trigger] self.window_max(
                        out_row as int,
                        out_col as int,
                        ch,
                        kh as nat,
                        0,
                    ) == if seen {
                        Some(maxes@[ch])
                    } else {
                        None::<T>
                    },
                !seen ==> maxes@ == zero_pixel(w.input_zero_point, chans as nat),
            decreases w.filter_rows - kh,
        {
            let mut kw: usize = 0;
            while kw < w.filter_cols
                invariant
                    self.wf(),
                    w == &self.window,
                    chans == w.input_chans,
                    center_row == out_row * w.strides.0,
                    center_col == out_col * w.strides.1,
                    out_row * w.strides.0 + w.filter_rows <= usize::MAX,
                    out_col * w.strides.1 + w.filter_cols <= usize::MAX,
                    kh < w.filter_rows,
                    kw <= w.filter_cols,
                    maxes@.len() == chans,
                    forall|ch: int|
                        0 <= ch < chans ==> #[trigger] self.window_max(
                            out_row as int,
                            out_col as int,
                            ch,
                            kh as nat,
                            kw as nat,
                        ) == if seen {
                            Some(maxes@[ch])
                        } else {
                            None::<T>
                        },
                    !seen ==> maxes@ == zero_pixel(w.input_zero_point, chans as nat),
                decreases w.filter_cols - kw,
            {
                let row_pos = center_row + kh;
                let col_pos = center_col + kw;
                let ghost r = w.tap_row(out_row as int, kh as int);
                let ghost c = w.tap_col(out_col as int, kw as int);
                if row_pos >= w.shift_rows && row_pos - w.shift_rows < w.input_rows
                    && col_pos >= w.shift_cols && col_pos - w.shift_cols < w.input_cols
                {
                    let src_row = row_pos - w.shift_rows;
                    let src_col = col_pos - w.shift_cols;
                    assert(w.in_input(r, c));
                    let slot = w.sample(src_row, src_col);
                    if !seen {
                        maxes =
                        match slot {
                            Some(j) => copy_pixel(&w.buffer[j]),
                            None => filled_pixel(w.input_zero_point, chans),
                        };
                        seen = true;
                        assert forall|ch: int| 0 <= ch < chans implies #[trigger] self.window_max(
                            out_row as int,
                            out_col as int,
                            ch,
                            kh as nat,
                            (kw + 1) as nat,
                        ) == Some(maxes@[ch]) by {
                            assert(self.window_max(out_row as int, out_col as int, ch, kh as nat, kw as nat) is None);
                        }
                    } else {
                        let ghost before = maxes@;
                        let mut ch: usize = 0;
                        while ch < chans
                            invariant
                                self.wf(),
                                w == &self.window,
                                chans == w.input_chans,
                                w.in_input(r, c),
                                src_row == r,
                                src_col == c,
                                ch <= chans,
                                maxes@.len() == chans,
                                before.len() == chans,
                                match slot {
                                    Some(j) => j < w.buffer@.len() && w.sees(r, c) == Some(w.buffer@[j as int]@),
                                    None => w.sees(r, c) is None,
                                },
                                forall|k: int| 0 <= k < ch ==> Some(#[trigger] maxes@[k]) == max_step(Some(before[k]), w.sees_value(r, c, k)),
                                forall|k: int| ch <= k < chans ==> #[trigger] maxes@[k] == before[k],
                            decreases chans - ch,
                        {
                            let x = match slot {
                                Some(j) => w.buffer[j][ch],
                                None => w.input_zero_point,
                            };
                            if x.to_i32() > maxes[ch].to_i32() {
                                maxes[ch] = x;
                            }
                            ch = ch + 1;
                        }
                        assert forall|k: int| 0 <= k < chans implies #[trigger] self.window_max(
                            out_row as int,
                            out_col as int,
                            k,
                            kh as nat,
                            (kw + 1) as nat,
                        ) == Some(maxes@[k]) by {
                            assert(self.window_max(out_row as int, out_col as int, k, kh as nat, kw as nat) == Some(before[k]));
                        }
                    }
                } else {
                    assert(!w.in_input(r, c));
                    assert forall|k: int| 0 <= k < chans implies #[trigger] self.window_max(
                        out_row as int,
                        out_col as int,
                        k,
                        kh as nat,
                        (kw + 1) as nat,
                    ) == self.window_max(out_row as int, out_col as int, k, kh as nat, kw as nat) by {
                    }
                }
                kw = kw + 1;
            }
            assert forall|k: int| 0 <= k < chans implies #[trigger] self.window_max(
                out_row as int,
                out_col as int,
                k,
                (kh + 1) as nat,
                0,
            ) == self.window_max(out_row as int, out_col as int, k, kh as nat, w.filter_cols as nat) by {
            }
            kh = kh + 1;
        }
        let mut y: Vec<T> = Vec::new();
        let mut ch: usize = 0;
        while ch < chans
            invariant
                self.wf(),
                w == &self.window,
                chans == w.input_chans,
                kh == w.filter_rows,
                ch <= chans,
                maxes@.len() == chans,
                y@.len() == ch,
                forall|k: int|
                    0 <= k < chans ==> #[trigger] self.window_max(
                        out_row as int,
                        out_col as int,
                        k,
                        kh as nat,
                        0,
                    ) == if seen {
                        Some(maxes@[k])
                    } else {
                        None::<T>
                    },
                !seen ==> maxes@ == zero_pixel(w.input_zero_point, chans as nat),
                forall|k: int| 0 <= k < ch ==> #[trigger] y@[k] == self.pooled_value(out_row as int, out_col as int, k),
            decreases chans - ch,
        {
            y.push(
                activate(
                    self.options.fused_activation,
                    maxes[ch],
                    self.output_zero_point,
                    self.output_relu6_limit,
                ),
            );
            ch = ch + 1;
        }
        proof {
            assert(y@ =~= self.pooled(out_row as int, out_col as int));
        }
        y
    }

    /// What one push does: the window takes `pixel`, and `out` is the output that became
    /// due, if one did, as the window sees the input after the push.
    pub open spec fn push_post(&self, pixel: Seq<T>, next: Self, out: Option<Seq<T>>) -> bool {
        let k = self.window.out_cycle as int;
        let oc = self.window.out_cols();
        &&& next.window.same_config(&self.window)
        &&& next.output_zero_point == self.output_zero_point
        &&& next.output_relu6_limit == self.output_relu6_limit
        &&& next.options == self.options
        &&& next.window.pixels@ == self.window.pixels@.push(pixel)
        &&& next.window.in_cycle == self.window.in_cycle + 1
        &&& match out {
            Some(y) => {
                &&& next.window.due(k)
                &&& next.window.out_cycle == k + 1
                &&& y == next.pooled(k / oc, k % oc)
            },
            None => {
                &&& !next.window.due(k)
                &&& next.window.out_cycle == k
            },
        }
    }

    /// A finished operator stays finished and emits nothing more.
    pub proof fn lemma_finished_stays_finished(&self, pixel: Seq<T>, next: Self, out: Option<Seq<T>>)
        requires
            self.window.finished(),
            self.push_post(pixel, next, out),
        ensures
            out is None,
            next.window.finished(),
    {
    }

    /// Takes the next input pixel and returns the output pixel that it completes, if any.
    pub fn push(&mut self, pixel: Vec<T>) -> (out: Option<Vec<T>>)
        requires
            old(self).wf(),
            pixel@.len() == old(self).window.input_chans,
            old(self).window.in_cycle < usize::MAX,
        ensures
            final(self).wf(),
            old(self).push_post(pixel@, *final(self), opt_view(out)),
    {
        let due = self.window.advance(&pixel);
        match due {
            Some((out_row, out_col)) => {
                proof {
                    self.window.lemma_required_cycles_fit(self.window.out_cycle - 1);
                }
                Some(self.compute(out_row, out_col))
            },
            None => None,
        }
    }

    /// The pixel that the operator sees at input position `(src_row, src_col)`: none for a
    /// position outside the input, one not yet pushed, or one that the ring no longer holds.
    pub fn sample(&self, src_row: isize, src_col: isize) -> (p: Option<Vec<T>>)
        requires
            self.wf(),
        ensures
            opt_view(p) == self.window.sees(src_row as int, src_col as int),
    {
        self.window.sees_pixel(src_row, src_col)
    }

    /// All outputs have been emitted.
    pub fn is_finished(&self) -> (r: bool)
        requires
            self.wf(),
        ensures
            r == self.window.finished(),
    {
        self.window.is_finished()
    }

    /// The output dimensions `(rows, cols)`.
    pub fn out_dims(&self) -> (dims: (usize, usize))
        requires
            self.wf(),
        ensures
            dims.0 == self.window.out_rows(),
            dims.1 == self.window.out_cols(),
    {
        self.window.out_dims()
    }

    /// The zero point of the output.
    pub fn output_zero_point(&self) -> (zp: T)
        ensures
            zp == self.output_zero_point,
    {
        self.output_zero_point
    }
}

impl<T: Quantized> StreamOp<T> for StreamingMaxPool2D<T> {
    open spec fn inv(&self) -> bool {
        self.wf()
    }

    open spec fn in_len(&self) -> nat {
        self.window.input_chans as nat
    }

    open spec fn out_len(&self) -> nat {
        self.window.input_chans as nat
    }

    open spec fn finished(&self) -> bool {
        self.window.finished()
    }

    open spec fn room(&self) -> nat {
        (usize::MAX - self.window.in_cycle) as nat
    }

    open spec fn zero_point(&self) -> T {
        self.output_zero_point
    }

    open spec fn drain_extra(&self) -> nat {
        self.window.drain_extra()
    }

    open spec fn out_count(&self) -> nat {
        self.window.total_output() as nat
    }

    proof fn lemma_push_keeps_metadata(&self, input: Seq<T>, next: Self, out: Option<Seq<T>>) {
    }

    open spec fn push_rel(&self, input: Seq<T>, next: Self, out: Option<Seq<T>>) -> bool {
        self.push_post(input, next, out)
    }

    fn push(&mut self, input: Vec<T>) -> (out: Option<Vec<T>>) {
        StreamingMaxPool2D::push(self, input)
    }

    fn is_finished(&self) -> (r: bool) {
        self.window.is_finished()
    }

    fn output_zero_point(&self) -> (zp: T) {
        self.output_zero_point
    }

    fn drain_hint(&self) -> (n: usize) {
        self.window.drain_hint()
    }


    fn out_count_hint(&self) -> (n: usize) {
        let (rows, cols) = self.window.out_dims();
        proof {
            self.window.lemma_out_extents();
        }
        rows * cols
    }
}
/// Performs the MaxPool2D operation on a one-batch input: returns the tensor of the output
/// dimensions whose pixel `(i, j)` holds, per channel, the activated maximum over the input
/// pixels of its filter window (the input zero point where the window holds none), with the
/// output zero point. The result is that of a MaxPool2D configured with these parameters.
pub fn max_pool_2d<T: Quantized>(
    input: Tensor4D<T>,
    filter_rows: usize,
    filter_cols: usize,
    output_zero_point: T,
    output_relu6_limit: T,
    options: MaxPool2DOptions,
) -> (output: Tensor4D<T>)
    requires
        input.wf(),
        input.batches == 1,
        input.cols > 0,
        options.strides.0 > 0,
        options.strides.1 > 0,
        options.view_padding == crate::tensor::TensorViewPadding::Same ==> filter_rows > 0
            && filter_cols > 0,
        ({
            let out_rows = crate::streaming_ops::window::out_extent(options.view_padding, input.rows as int, filter_rows as int, options.strides.0 as int);
            let out_cols = crate::streaming_ops::window::out_extent(options.view_padding, input.cols as int, filter_cols as int, options.strides.1 as int);
            &&& out_rows * out_cols <= usize::MAX
            &&& (out_rows * options.strides.0 + filter_rows) * input.cols + out_cols
                * options.strides.1 + filter_cols + 1 <= usize::MAX
        }),
    ensures
        output.wf(),
        output.batches == 1,
        output.rows == crate::streaming_ops::window::out_extent(options.view_padding, input.rows as int, filter_rows as int, options.strides.0 as int),
        output.cols == crate::streaming_ops::window::out_extent(options.view_padding, input.cols as int, filter_cols as int, options.strides.1 as int),
        output.chans == input.chans,
        output.zero_point@ == seq![output_zero_point],
        exists|op: StreamingMaxPool2D<T>|
            {
                &&& op.wf()
                &&& op.window.input_rows == input.rows
                &&& op.window.input_cols == input.cols
                &&& op.window.input_chans == input.chans
                &&& op.window.filter_rows == filter_rows
                &&& op.window.filter_cols == filter_cols
                &&& op.window.input_zero_point == input.zero_point@[0]
                &&& op.output_zero_point == output_zero_point
                &&& op.output_relu6_limit == output_relu6_limit
                &&& op.options == options
                &&& forall|p: int|
                    0 <= p < output.rows * output.cols ==> #[trigger] output.pixel(0, p)
                        == op.reference_pooled(input_pixels(&input), p / output.cols as int, p % output.cols as int)
            },
{
    let total = input.rows * input.cols;
    let mut op = StreamingMaxPool2D::new(
        input.rows,
        input.cols,
        input.chans,
        filter_rows,
        filter_cols,
        total,
        input.zero_point[0],
        output_zero_point,
        output_relu6_limit,
        options,
    );
    let ghost op0 = op;
    let mut i: usize = 0;
    assert(op.window.pixels@ =~= input_pixels(&input).take(0));
    while i < total
        invariant
            input.wf(),
            input.batches == 1,
            total == input.rows * input.cols,
            op.wf(),
            op.window.same_config(&op0.window),
            op.output_zero_point == op0.output_zero_point,
            op.output_relu6_limit == op0.output_relu6_limit,
            op.options == op0.options,
            op.window.in_cycle == i,
            op.window.input_chans == input.chans,
            op.window.input_rows == input.rows,
            op.window.input_cols == input.cols,
            op.window.buffer@.len() == total,
            i <= total,
            op.window.pixels@ == input_pixels(&input).take(i as int),
        decreases total - i,
    {
        assert(input.buffer@[0]@[i as int]@.len() == input.chans);
        let _ = op.window.advance(&input.buffer[0][i]);
        assert(op.window.pixels@ =~= input_pixels(&input).take(i + 1));
        i = i + 1;
    }
    assert(op.window.pixels@ =~= input_pixels(&input));
    let (out_rows, out_cols) = op.out_dims();
    proof {
        op.window.lemma_out_extents();
    }
    let n = out_rows * out_cols;
    let mut pixels: Vec<Vec<T>> = Vec::new();
    let mut k: usize = 0;
    while k < n
        invariant
            op.wf(),
            op.window.in_cycle == total,
            total == op.window.total_input(),
            op.window.buffer@.len() == total,
            op.window.pixels@ == input_pixels(&input),
            out_rows == op.window.out_rows(),
            out_cols == op.window.out_cols(),
            out_cols >= 1,
            n == out_rows * out_cols,
            k <= n,
            pixels@.len() == k,
            forall|p: int| 0 <= p < k ==> (#[trigger] pixels@[p])@ == op.reference_pooled(
                input_pixels(&input),
                p / out_cols as int,
                p % out_cols as int,
            ),
            forall|p: int| 0 <= p < k ==> (#[trigger] pixels@[p])@.len() == op.window.input_chans,
        decreases n - k,
    {
        proof {
            op.window.lemma_required_cycles_fit(k as int);
            op.lemma_streaming_matches_reference(k as int);
        }
        let y = op.compute(k / out_cols, k % out_cols);
        pixels.push(y);
        k = k + 1;
    }
    let mut buffer: Vec<Vec<Vec<T>>> = Vec::new();
    buffer.push(pixels);
    let mut zero_point: Vec<T> = Vec::new();
    zero_point.push(output_zero_point);
    let output = Tensor4D { batches: 1, rows: out_rows, cols: out_cols, chans: input.chans, buffer, zero_point };
    proof {
        assert(output.zero_point@ =~= seq![output_zero_point]);
    }
    output
}

} // verus!
