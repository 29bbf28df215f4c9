//! Streaming Conv2D: each output pixel holds, per filter, the requantized zero-point-corrected
//! dot product of the filter with the input window.
use vstd::prelude::*;

use crate::activation::{activate, spec_activate};
use crate::ops_options::Conv2DOptions;
use crate::quantize::Quantized;
use crate::streaming_ops::stream_op::{opt_view, StreamOp};
use crate::streaming_ops::schedule::{
    lemma_drain_reaches_outputs, lemma_emission_reaches, lemma_max_required_bounds, lemma_run_caught_up, lemma_run_config, lemma_run_finishes, lemma_run_prompt, lemma_valid_outputs_due_on_input, lemma_run_progress, max_required, window_step,
};
use crate::streaming_ops::stream_pipeline::{
    drain_limit, emit_flags, emits_as, emitted, feed, feed_prefix, finishes_on_input, finishes_within, input_pixels, is_run, lemma_emitted_at,
    placed, stops,
};
use crate::streaming_ops::window::{filled_pixel, zero_pixel, StreamWindow, out_extent};
use crate::tensor::{Tensor4D, TensorViewPadding};

verus! {

/// A Conv2D operator that takes its input one pixel at a time.
///
/// The window's ring spans a filter window. `requantize` maps a filter's
/// index and its integer accumulator to the quantized output value (this is where the
/// biases and scales live); the fused activation is applied after it.
pub struct StreamingConv2D<T, Q> {
    /// The sliding window over the input.
    pub window: StreamWindow<T>,
    /// The filters `[batches, rows, cols, chans]`, with one zero point or one per filter.
    pub filters: Tensor4D<T>,
    pub output_zero_point: T,
    /// 6.0 quantized with the output's scale and zero point: the ceiling of ReLU6.
    pub output_relu6_limit: T,
    pub options: Conv2DOptions,
    pub requantize: Q,
    /// The sum of all values of each filter.
    pub filter_sums: Vec<i64>,
}

impl<T: Quantized, Q: Fn(usize, i64) -> T> StreamingConv2D<T, Q> {
    /// Number of values in one filter.
    pub open spec fn filter_len(&self) -> int {
        self.window.filter_rows * self.window.filter_cols * self.window.input_chans
    }

    /// The zero point of filter `b`: its own, or the shared one.
    pub open spec fn filter_zero_point(&self, b: int) -> int {
        if b < self.filters.zero_point@.len() {
            self.filters.zero_point@[b].value()
        } else {
            self.filters.zero_point@[0].value()
        }
    }

    /// Value `ch` of tap `(kh, kw)` of filter `b`.
    pub open spec fn filter_value(&self, b: int, kh: int, kw: int, ch: int) -> int {
        self.filters.pixel(b, kh * self.window.filter_cols + kw)[ch].value()
    }

    /// Value `ch` of the input that tap `(kh, kw)` of output `(out_row, out_col)` sees; the
    /// input zero point outside the input.
    pub open spec fn input_value(&self, out_row: int, out_col: int, kh: int, kw: int, ch: int) -> int {
        self.window.sees_value(
            self.window.tap_row(out_row, kh),
            self.window.tap_col(out_col, kw),
            ch,
        ).value()
    }

    /// `sum over ch < n of input * filter` at one tap.
    pub open spec fn chan_dot(&self, b: int, out_row: int, out_col: int, kh: int, kw: int, n: nat) -> int
        decreases n,
    {
        if n == 0 {
            0
        } else {
            self.chan_dot(b, out_row, out_col, kh, kw, (n - 1) as nat)
                + self.input_value(out_row, out_col, kh, kw, n - 1) * self.filter_value(b, kh, kw, n - 1)
        }
    }

    /// `sum over ch < n of input` at one tap.
    pub open spec fn chan_input(&self, out_row: int, out_col: int, kh: int, kw: int, n: nat) -> int
        decreases n,
    {
        if n == 0 {
            0
        } else {
            self.chan_input(out_row, out_col, kh, kw, (n - 1) as nat) + self.input_value(out_row, out_col, kh, kw, n - 1)
        }
    }

    /// `sum over ch < n of filter` at one tap.
    pub open spec fn chan_filter(&self, b: int, kh: int, kw: int, n: nat) -> int
        decreases n,
    {
        if n == 0 {
            0
        } else {
            self.chan_filter(b, kh, kw, (n - 1) as nat) + self.filter_value(b, kh, kw, n - 1)
        }
    }

    /// `sum over ch < n of (input - input zero point) * (filter - filter zero point)` at one tap.
    pub open spec fn chan_centered(&self, b: int, out_row: int, out_col: int, kh: int, kw: int, n: nat) -> int
        decreases n,
    {
        if n == 0 {
            0
        } else {
            self.chan_centered(b, out_row, out_col, kh, kw, (n - 1) as nat)
                + (self.input_value(out_row, out_col, kh, kw, n - 1) - self.window.input_zero_point.value())
                * (self.filter_value(b, kh, kw, n - 1) - self.filter_zero_point(b))
        }
    }

    /// The dot product of filter `b` with the window of output `(out_row, out_col)`, over the
    /// taps of the rows before `kh` and the first `kw` taps of row `kh`.
    pub open spec fn dot_upto(&self, b: int, out_row: int, out_col: int, kh: nat, kw: nat) -> int
        decreases kh, kw,
    {
        if kw == 0 {
            if kh == 0 {
                0
            } else {
                self.dot_upto(b, out_row, out_col, (kh - 1) as nat, self.window.filter_cols as nat)
            }
        } else {
            self.dot_upto(b, out_row, out_col, kh, (kw - 1) as nat)
                + self.chan_dot(b, out_row, out_col, kh as int, kw - 1, self.window.input_chans as nat)
        }
    }

    /// The sum of the window's input values over the same taps as `dot_upto`.
    pub open spec fn input_upto(&self, out_row: int, out_col: int, kh: nat, kw: nat) -> int
        decreases kh, kw,
    {
        if kw == 0 {
            if kh == 0 {
                0
            } else {
                self.input_upto(out_row, out_col, (kh - 1) as nat, self.window.filter_cols as nat)
            }
        } else {
            self.input_upto(out_row, out_col, kh, (kw - 1) as nat)
                + self.chan_input(out_row, out_col, kh as int, kw - 1, self.window.input_chans as nat)
        }
    }

    /// The sum of the values of filter `b` over the same taps as `dot_upto`.
    pub open spec fn filter_upto(&self, b: int, kh: nat, kw: nat) -> int
        decreases kh, kw,
    {
        if kw == 0 {
            if kh == 0 {
                0
            } else {
                self.filter_upto(b, (kh - 1) as nat, self.window.filter_cols as nat)
            }
        } else {
            self.filter_upto(b, kh, (kw - 1) as nat) + self.chan_filter(b, kh as int, kw - 1, self.window.input_chans as nat)
        }
    }

    /// The zero-point-corrected dot product over the same taps as `dot_upto`.
    pub open spec fn centered_upto(&self, b: int, out_row: int, out_col: int, kh: nat, kw: nat) -> int
        decreases kh, kw,
    {
        if kw == 0 {
            if kh == 0 {
                0
            } else {
                self.centered_upto(b, out_row, out_col, (kh - 1) as nat, self.window.filter_cols as nat)
            }
        } else {
            self.centered_upto(b, out_row, out_col, kh, (kw - 1) as nat)
                + self.chan_centered(b, out_row, out_col, kh as int, kw - 1, self.window.input_chans as nat)
        }
    }

    /// The sum of all values of filter `b`.
    pub open spec fn filter_total(&self, b: int) -> int {
        self.filter_upto(b, self.window.filter_rows as nat, 0)
    }

    /// The integer accumulator of filter `b` at output `(out_row, out_col)`:
    /// `dot - sum_input * fzp - izp * sum_filter + len * izp * fzp`.
    pub open spec fn accumulator(&self, b: int, out_row: int, out_col: int) -> int {
        let full = self.window.filter_rows as nat;
        let izp = self.window.input_zero_point.value();
        let fzp = self.filter_zero_point(b);
        self.dot_upto(b, out_row, out_col, full, 0) - self.input_upto(out_row, out_col, full, 0) * fzp
            - izp * self.filter_total(b) + self.filter_len() * izp * fzp
    }

    /// The zero-point-corrected dot product of filter `b` with the window of output
    /// `(out_row, out_col)`.
    pub open spec fn centered_dot(&self, b: int, out_row: int, out_col: int) -> int {
        self.centered_upto(b, out_row, out_col, self.window.filter_rows as nat, 0)
    }

    /// Well-formedness: a well-formed window configured as the options say, filters of the
    /// window's shape with their sums, a requantizer that takes every accumulator, and filters
    /// small enough for an `i64` accumulator.
    pub open spec fn wf(&self) -> bool {
        &&& self.core_wf()
        &&& self.filter_sums@.len() == self.filters.batches
        &&& forall|b: int| 0 <= b < self.filters.batches ==> #[trigger] self.filter_sums@[b] == self.filter_total(b)
    }

    /// Everything of `wf` but the filter sums.
    pub open spec fn core_wf(&self) -> bool {
        &&& self.window.wf()
        &&& self.window.view_padding == self.options.view_padding
        &&& self.window.strides == self.options.strides
        &&& self.filters.wf()
        &&& self.filters.rows == self.window.filter_rows
        &&& self.filters.cols == self.window.filter_cols
        &&& self.filters.chans == self.window.input_chans
        &&& self.filter_len() <= usize::MAX
        &&& self.filter_len() * 262144 <= i64::MAX
        &&& forall|b: usize, acc: i64| #[trigger] call_requires(self.requantize, (b, acc))
    }

    /// `y` is the value of filter `b` at output `(out_row, out_col)`: the activated
    /// requantization of its accumulator.
    pub open spec fn is_output_value(&self, b: int, out_row: int, out_col: int, y: T) -> bool {
        exists|r: T|
            #[trigger] call_ensures(
                self.requantize,
                (b as usize, self.accumulator(b, out_row, out_col) as i64),
                r,
            ) && y == spec_activate(
                self.options.fused_activation,
                r,
                self.output_zero_point,
                self.output_relu6_limit,
            )
    }

    /// `y` is output pixel `(out_row, out_col)` as the window sees the input now.
    pub open spec fn is_output(&self, out_row: int, out_col: int, y: Seq<T>) -> bool {
        &&& y.len() == self.filters.batches
        &&& forall|b: int|
            0 <= b < y.len() ==> self.is_output_value(b, out_row, out_col, #[trigger] y[b])
    }

    /// Input and filter values lie within the range of quantized values.
    proof fn lemma_values_in_range(&self, b: int, out_row: int, out_col: int, kh: int, kw: int, ch: int)
        ensures
            -128 <= self.input_value(out_row, out_col, kh, kw, ch) <= 255,
            -128 <= self.filter_value(b, kh, kw, ch) <= 255,
            -65025 <= self.input_value(out_row, out_col, kh, kw, ch) * self.filter_value(b, kh, kw, ch) <= 65025,
    {
        let r = self.window.tap_row(out_row, kh);
        let c = self.window.tap_col(out_col, kw);
        T::lemma_value_range(self.window.sees_value(r, c, ch));
        T::lemma_value_range(self.filters.pixel(b, kh * self.window.filter_cols + kw)[ch]);
        let x = self.input_value(out_row, out_col, kh, kw, ch);
        let f = self.filter_value(b, kh, kw, ch);
        assert(-65025 <= x * f <= 65025) by (nonlinear_arith)
            requires -128 <= x <= 255, -128 <= f <= 255;
    }

    /// The sums over the channels of one tap stay within their term bounds.
    proof fn lemma_chan_bounds(&self, b: int, out_row: int, out_col: int, kh: int, kw: int, n: nat)
        ensures
            -65025 * n <= self.chan_dot(b, out_row, out_col, kh, kw, n) <= 65025 * n,
            -128 * n <= self.chan_input(out_row, out_col, kh, kw, n) <= 255 * n,
            -128 * n <= self.chan_filter(b, kh, kw, n) <= 255 * n,
        decreases n,
    {
        if n > 0 {
            self.lemma_chan_bounds(b, out_row, out_col, kh, kw, (n - 1) as nat);
            self.lemma_values_in_range(b, out_row, out_col, kh, kw, n - 1);
        }
    }

    /// The sums over the taps taken so far stay within their term bounds.
    proof fn lemma_upto_bounds(&self, b: int, out_row: int, out_col: int, kh: nat, kw: nat)
        requires
            kw <= self.window.filter_cols,
        ensures
            ({
                let m = (kh * self.window.filter_cols + kw) * self.window.input_chans;
                &&& -65025 * m <= self.dot_upto(b, out_row, out_col, kh, kw) <= 65025 * m
                &&& -128 * m <= self.input_upto(out_row, out_col, kh, kw) <= 255 * m
                &&& -128 * m <= self.filter_upto(b, kh, kw) <= 255 * m
            }),
        decreases kh, kw,
    {
        let fc = self.window.filter_cols as int;
        let ch = self.window.input_chans as int;
        if kw == 0 {
            if kh > 0 {
                self.lemma_upto_bounds(b, out_row, out_col, (kh - 1) as nat, self.window.filter_cols as nat);
                assert(((kh - 1) * fc + fc) * ch == (kh * fc + 0) * ch) by (nonlinear_arith);
            }
        } else {
            self.lemma_upto_bounds(b, out_row, out_col, kh, (kw - 1) as nat);
            self.lemma_chan_bounds(b, out_row, out_col, kh as int, kw - 1, self.window.input_chans as nat);
            assert((kh * fc + (kw - 1)) * ch + ch == (kh * fc + kw) * ch) by (nonlinear_arith);
        }
    }

    /// The whole-window sums fit the accumulator's bounds.
    proof fn lemma_full_bounds(&self, b: int, out_row: int, out_col: int)
        requires
            self.filter_len() * 262144 <= i64::MAX,
        ensures
            ({
                let full = self.window.filter_rows as nat;
                let k = self.filter_len();
                &&& -65025 * k <= self.dot_upto(b, out_row, out_col, full, 0) <= 65025 * k
                &&& -128 * k <= self.input_upto(out_row, out_col, full, 0) <= 255 * k
                &&& -128 * k <= self.filter_total(b) <= 255 * k
            }),
    {
        self.lemma_upto_bounds(b, out_row, out_col, self.window.filter_rows as nat, 0);
        let fr = self.window.filter_rows as int;
        let fc = self.window.filter_cols as int;
        let ch = self.window.input_chans as int;
        assert((fr * fc + 0) * ch == fr * fc * ch) by (nonlinear_arith);
    }

    /// The flat index of tap `(kh, kw)` lies inside the filter.
    proof fn lemma_tap_index(&self, kh: int, kw: int)
        requires
            0 <= kh < self.window.filter_rows,
            0 <= kw < self.window.filter_cols,
        ensures
            0 <= kh * self.window.filter_cols + kw < self.window.filter_rows * self.window.filter_cols,
            (kh * self.window.filter_cols + kw + 1) * self.window.input_chans <= self.filter_len(),
    {
        let fr = self.window.filter_rows as int;
        let fc = self.window.filter_cols as int;
        let ch = self.window.input_chans as int;
        assert(0 <= kh * fc + kw < fr * fc) by (nonlinear_arith)
            requires 0 <= kh < fr, 0 <= kw < fc;
        assert((kh * fc + kw + 1) * ch <= fr * fc * ch) by (nonlinear_arith)
            requires 0 <= kh < fr, 0 <= kw < fc, ch >= 0;
    }

    /// Computes the sum of all values of each filter.
    fn compute_filter_sums(&self) -> (sums: Vec<i64>)
        requires
            self.core_wf(),
        ensures
            sums@.len() == self.filters.batches,
            forall|b: int| 0 <= b < self.filters.batches ==> #[trigger] sums@[b] == self.filter_total(b),
    {
        let w = &self.window;
        let chans = w.input_chans;
        let mut sums: Vec<i64> = Vec::new();
        let mut b: usize = 0;
        while b < self.filters.batches
            invariant
                self.core_wf(),
                w == &self.window,
                chans == w.input_chans,
                b <= self.filters.batches,
                sums@.len() == b,
                forall|k: int| 0 <= k < b ==> #[trigger] sums@[k] == self.filter_total(k),
            decreases self.filters.batches - b,
        {
            let mut total: i64 = 0;
            let mut kh: usize = 0;
            while kh < w.filter_rows
                invariant
                    self.core_wf(),
                    w == &self.window,
                    chans == w.input_chans,
                    b < self.filters.batches,
                    kh <= w.filter_rows,
                    total == self.filter_upto(b as int, kh as nat, 0),
                decreases w.filter_rows - kh,
            {
                let mut kw: usize = 0;
                while kw < w.filter_cols
                    invariant
                        self.core_wf(),
                        w == &self.window,
                        chans == w.input_chans,
                        b < self.filters.batches,
                        kh < w.filter_rows,
                        kw <= w.filter_cols,
                        total == self.filter_upto(b as int, kh as nat, kw as nat),
                    decreases w.filter_cols - kw,
                {
                    proof {
                        self.lemma_tap_index(kh as int, kw as int);
                    }
                    let p = kh * w.filter_cols + kw;
                    let ghost before = total;
                    let mut ch: usize = 0;
                    while ch < chans
                        invariant
                            self.core_wf(),
                            w == &self.window,
                            chans == w.input_chans,
                            b < self.filters.batches,
                            kh < w.filter_rows,
                            kw < w.filter_cols,
                            p == kh * w.filter_cols + kw,
                            p < w.filter_rows * w.filter_cols,
                            (kh * w.filter_cols + kw + 1) * w.input_chans <= self.filter_len(),
                            ch <= chans,
                            before == self.filter_upto(b as int, kh as nat, kw as nat),
                            total == before + self.chan_filter(b as int, kh as int, kw as int, ch as nat),
                        decreases chans - ch,
                    {
                        proof {
                            self.lemma_upto_bounds(b as int, 0, 0, kh as nat, kw as nat);
                            self.lemma_chan_bounds(b as int, 0, 0, kh as int, kw as int, (ch + 1) as nat);
                            let m = (kh * w.filter_cols + kw) * w.input_chans;
                            let k = self.filter_len();
                            assert(m + w.input_chans == (kh * w.filter_cols + kw + 1) * w.input_chans) by (nonlinear_arith)
                                requires m == (kh * w.filter_cols + kw) * w.input_chans;
                            assert(255 * m + 255 * (ch + 1) <= 255 * k && -128 * m - 128 * (ch + 1) >= -128 * k) by (nonlinear_arith)
                                requires m + ch + 1 <= m + w.input_chans, m + w.input_chans <= k, ch + 1 <= w.input_chans;
                        }
                        total = total + self.filters.buffer[b][p][ch].to_i32() as i64;
                        ch = ch + 1;
                    }
                    kw = kw + 1;
                }
                kh = kh + 1;
            }
            sums.push(total);
            b = b + 1;
        }
        sums
    }

    /// Computes the integer accumulator of filter `b` at output `(out_row, out_col)`.
    fn accumulate(&self, b: usize, out_row: usize, out_col: usize) -> (acc: i64)
        requires
            self.wf(),
            b < self.filters.batches,
            out_row < self.window.out_rows(),
            out_col < self.window.out_cols(),
        ensures
            acc == self.accumulator(b as int, out_row as int, out_col as int),
    {
        let w = &self.window;
        proof {
            w.lemma_taps_fit(out_row as int, out_col as int);
        }
        let chans = w.input_chans;
        let izp_t = w.input_zero_point;
        let izp = izp_t.to_i32() as i64;
        let fzp = if b < self.filters.zero_point.len() {
            self.filters.zero_point[b].to_i32() as i64
        } else {
            self.filters.zero_point[0].to_i32() as i64
        };
        let center_row = out_row * w.strides.0;
        let center_col = out_col * w.strides.1;
        let mut dot: i64 = 0;
        let mut sum_input: i64 = 0;
        let mut kh: usize = 0;
        while kh < w.filter_rows
            invariant
                self.wf(),
                w == &self.window,
                chans == w.input_chans,
                izp_t == w.input_zero_point,
                b < self.filters.batches,
                center_row == out_row * w.strides.0,
                center_col == out_col * w.strides.1,
                out_row * w.strides.0 + w.filter_rows <= usize::MAX,
                out_col * w.strides.1 + w.filter_cols <= usize::MAX,
                kh <= w.filter_rows,
                dot == self.dot_upto(b as int, out_row as int, out_col as int, kh as nat, 0),
                sum_input == self.input_upto(out_row as int, out_col as int, kh as nat, 0),
            decreases w.filter_rows - kh,
        {
            let mut kw: usize = 0;
            while kw < w.filter_cols
                invariant
                    self.wf(),
                    w == &self.window,
                    chans == w.input_chans,
                    izp_t == w.input_zero_point,
                    b < self.filters.batches,
                    center_row == out_row * w.strides.0,
                    center_col == out_col * w.strides.1,
                    out_row * w.strides.0 + w.filter_rows <= usize::MAX,
                    out_col * w.strides.1 + w.filter_cols <= usize::MAX,
                    kh < w.filter_rows,
                    kw <= w.filter_cols,
                    dot == self.dot_upto(b as int, out_row as int, out_col as int, kh as nat, kw as nat),
                    sum_input == self.input_upto(out_row as int, out_col as int, kh as nat, kw as nat),
                decreases w.filter_cols - kw,
            {
                proof {
                    self.lemma_tap_index(kh as int, kw as int);
                }
                let p = kh * w.filter_cols + kw;
                let row_pos = center_row + kh;
                let col_pos = center_col + kw;
                let ghost r = w.tap_row(out_row as int, kh as int);
                let ghost c = w.tap_col(out_col as int, kw as int);
                let slot = if row_pos >= w.shift_rows && row_pos - w.shift_rows < w.input_rows
                    && col_pos >= w.shift_cols && col_pos - w.shift_cols < w.input_cols
                {
                    w.sample(row_pos - w.shift_rows, col_pos - w.shift_cols)
                } else {
                    None
                };
                let ghost dot_before = dot;
                let ghost input_before = sum_input;
                let mut ch: usize = 0;
                while ch < chans
                    invariant
                        self.wf(),
                        w == &self.window,
                        chans == w.input_chans,
                        izp_t == w.input_zero_point,
                        b < self.filters.batches,
                        kh < w.filter_rows,
                        kw < w.filter_cols,
                        p == kh * w.filter_cols + kw,
                        p < w.filter_rows * w.filter_cols,
                        (kh * w.filter_cols + kw + 1) * w.input_chans <= self.filter_len(),
                        r == w.tap_row(out_row as int, kh as int),
                        c == w.tap_col(out_col as int, kw as int),
                        match slot {
                            Some(j) => j < w.buffer@.len() && w.sees(r, c) == Some(w.buffer@[j as int]@),
                            None => w.sees(r, c) is None,
                        },
                        ch <= chans,
                        dot_before == self.dot_upto(b as int, out_row as int, out_col as int, kh as nat, kw as nat),
                        input_before == self.input_upto(out_row as int, out_col as int, kh as nat, kw as nat),
                        dot == dot_before + self.chan_dot(b as int, out_row as int, out_col as int, kh as int, kw as int, ch as nat),
                        sum_input == input_before + self.chan_input(out_row as int, out_col as int, kh as int, kw as int, ch as nat),
                    decreases chans - ch,
                {
                    let x = match slot {
                        Some(j) => w.buffer[j][ch],
                        None => izp_t,
                    };
                    let xv = x.to_i32() as i64;
                    let fv = self.filters.buffer[b][p][ch].to_i32() as i64;
                    proof {
                        self.lemma_upto_bounds(b as int, out_row as int, out_col as int, kh as nat, kw as nat);
                        self.lemma_chan_bounds(b as int, out_row as int, out_col as int, kh as int, kw as int, (ch + 1) as nat);
                        let m = (kh * w.filter_cols + kw) * w.input_chans;
                        let k = self.filter_len();
                        assert(m + w.input_chans == (kh * w.filter_cols + kw + 1) * w.input_chans) by (nonlinear_arith)
                            requires m == (kh * w.filter_cols + kw) * w.input_chans;
                        assert(65025 * m + 65025 * (ch + 1) <= 65025 * k && 255 * m + 255 * (ch + 1) <= 255 * k
                            && -128 * m - 128 * (ch + 1) >= -128 * k) by (nonlinear_arith)
                            requires m + ch + 1 <= m + w.input_chans, m + w.input_chans <= k, ch + 1 <= w.input_chans;
                        assert(xv == self.input_value(out_row as int, out_col as int, kh as int, kw as int, ch as int));
                        assert(fv == self.filter_value(b as int, kh as int, kw as int, ch as int));
                        self.lemma_values_in_range(b as int, out_row as int, out_col as int, kh as int, kw as int, ch as int);
                    }
                    dot = dot + xv * fv;
                    sum_input = sum_input + xv;
                    ch = ch + 1;
                }
                kw = kw + 1;
            }
            kh = kh + 1;
        }
        proof {
            self.lemma_full_bounds(b as int, out_row as int, out_col as int);
            let k = self.filter_len();
            T::lemma_value_range(izp_t);
            T::lemma_value_range(if (b as int) < self.filters.zero_point@.len() { self.filters.zero_point@[b as int] } else { self.filters.zero_point@[0] });
            let s_in = sum_input as int;
            let fs = self.filter_sums@[b as int] as int;
            assert(-65025 * k <= s_in * fzp <= 65025 * k) by (nonlinear_arith)
                requires -128 * k <= s_in <= 255 * k, -128 <= fzp <= 255, k >= 0;
            assert(-65025 * k <= izp * fs <= 65025 * k) by (nonlinear_arith)
                requires -128 * k <= fs <= 255 * k, -128 <= izp <= 255, k >= 0;
            assert(-255 * k <= k * izp <= 255 * k) by (nonlinear_arith)
                requires -128 <= izp <= 255, k >= 0;
            assert(-65025 * k <= k * izp * fzp <= 65025 * k) by (nonlinear_arith)
                requires -255 * k <= k * izp <= 255 * k, -128 <= fzp <= 255, k >= 0;
            assert(4 * 65025 * k <= i64::MAX) by (nonlinear_arith)
                requires k * 262144 <= i64::MAX, k >= 0;
        }
        let len = (w.filter_rows * w.filter_cols * chans) as i64;
        dot - sum_input * fzp - izp * self.filter_sums[b] + len * izp * fzp
    }

    /// The channel sums of one tap expand the zero-point-corrected product.
    proof fn lemma_chan_centered(&self, b: int, out_row: int, out_col: int, kh: int, kw: int, n: nat)
        ensures
            self.chan_centered(b, out_row, out_col, kh, kw, n) == self.chan_dot(b, out_row, out_col, kh, kw, n)
                - self.filter_zero_point(b) * self.chan_input(out_row, out_col, kh, kw, n)
                - self.window.input_zero_point.value() * self.chan_filter(b, kh, kw, n)
                + n * self.window.input_zero_point.value() * self.filter_zero_point(b),
        decreases n,
    {
        let izp0 = self.window.input_zero_point.value();
        let fzp0 = self.filter_zero_point(b);
        if n == 0 {
            assert(0 == 0 - fzp0 * 0 - izp0 * 0 + n * izp0 * fzp0) by (nonlinear_arith)
                requires n == 0;
        } else {
            self.lemma_chan_centered(b, out_row, out_col, kh, kw, (n - 1) as nat);
            let x = self.input_value(out_row, out_col, kh, kw, n - 1);
            let f = self.filter_value(b, kh, kw, n - 1);
            let izp = self.window.input_zero_point.value();
            let fzp = self.filter_zero_point(b);
            let p = (n - 1) as nat;
            let c_p = self.chan_centered(b, out_row, out_col, kh, kw, p);
            let d_p = self.chan_dot(b, out_row, out_col, kh, kw, p);
            let i_p = self.chan_input(out_row, out_col, kh, kw, p);
            let f_p = self.chan_filter(b, kh, kw, p);
            let c_n = self.chan_centered(b, out_row, out_col, kh, kw, n);
            let d_n = self.chan_dot(b, out_row, out_col, kh, kw, n);
            let i_n = self.chan_input(out_row, out_col, kh, kw, n);
            let f_n = self.chan_filter(b, kh, kw, n);
            assert((x - izp) * (f - fzp) == x * f - fzp * x - izp * f + izp * fzp) by (nonlinear_arith);
            assert((n - 1) * izp * fzp == n * izp * fzp - izp * fzp) by (nonlinear_arith);
            assert(fzp * i_n == fzp * i_p + fzp * x) by (nonlinear_arith)
                requires i_n == i_p + x;
            assert(izp * f_n == izp * f_p + izp * f) by (nonlinear_arith)
                requires f_n == f_p + f;
            assert(c_n == c_p + (x - izp) * (f - fzp));
            assert(d_n == d_p + x * f);
            assert(c_n == d_n - fzp * i_n - izp * f_n + n * izp * fzp);
        }
    }

    /// The sums over the taps taken so far expand the zero-point-corrected dot product.
    proof fn lemma_centered_upto(&self, b: int, out_row: int, out_col: int, kh: nat, kw: nat)
        ensures
            self.centered_upto(b, out_row, out_col, kh, kw) == self.dot_upto(b, out_row, out_col, kh, kw)
                - self.filter_zero_point(b) * self.input_upto(out_row, out_col, kh, kw)
                - self.window.input_zero_point.value() * self.filter_upto(b, kh, kw)
                + ((kh * self.window.filter_cols + kw) * self.window.input_chans)
                * self.window.input_zero_point.value() * self.filter_zero_point(b),
        decreases kh, kw,
    {
        let fc = self.window.filter_cols as int;
        let ch = self.window.input_chans as int;
        let izp = self.window.input_zero_point.value();
        let fzp = self.filter_zero_point(b);
        if kw == 0 {
            if kh > 0 {
                let q = (kh - 1) as nat;
                self.lemma_centered_upto(b, out_row, out_col, q, self.window.filter_cols as nat);
                let c_q = self.centered_upto(b, out_row, out_col, q, fc as nat);
                let d_q = self.dot_upto(b, out_row, out_col, q, fc as nat);
                let i_q = self.input_upto(out_row, out_col, q, fc as nat);
                let f_q = self.filter_upto(b, q, fc as nat);
                assert(c_q == d_q - fzp * i_q - izp * f_q + ((kh * fc + 0) * ch) * izp * fzp) by (nonlinear_arith)
                    requires
                        c_q == d_q - fzp * i_q - izp * f_q + ((q * fc + fc) * ch) * izp * fzp,
                        q == kh - 1;
            } else {
                assert(0 == 0 - fzp * 0 - izp * 0 + ((kh * fc + kw) * ch) * izp * fzp) by (nonlinear_arith)
                    requires kh == 0, kw == 0;
            }
        } else {
            self.lemma_centered_upto(b, out_row, out_col, kh, (kw - 1) as nat);
            self.lemma_chan_centered(b, out_row, out_col, kh as int, kw - 1, self.window.input_chans as nat);
            let p = (kw - 1) as nat;
            let nch = self.window.input_chans as nat;
            let c_p = self.centered_upto(b, out_row, out_col, kh, p);
            let d_p = self.dot_upto(b, out_row, out_col, kh, p);
            let i_p = self.input_upto(out_row, out_col, kh, p);
            let f_p = self.filter_upto(b, kh, p);
            let c_t = self.chan_centered(b, out_row, out_col, kh as int, kw - 1, nch);
            let d_t = self.chan_dot(b, out_row, out_col, kh as int, kw - 1, nch);
            let i_t = self.chan_input(out_row, out_col, kh as int, kw - 1, nch);
            let f_t = self.chan_filter(b, kh as int, kw - 1, nch);
            let c_n = self.centered_upto(b, out_row, out_col, kh, kw);
            let d_n = self.dot_upto(b, out_row, out_col, kh, kw);
            let i_n = self.input_upto(out_row, out_col, kh, kw);
            let f_n = self.filter_upto(b, kh, kw);
            assert(c_n == d_n - fzp * i_n - izp * f_n + ((kh * fc + kw) * ch) * izp * fzp) by (nonlinear_arith)
                requires
                    c_n == c_p + c_t,
                    d_n == d_p + d_t,
                    i_n == i_p + i_t,
                    f_n == f_p + f_t,
                    c_p == d_p - fzp * i_p - izp * f_p + ((kh * fc + (kw - 1)) * ch) * izp * fzp,
                    c_t == d_t - fzp * i_t - izp * f_t + ch * izp * fzp;
        }
    }

    /// The integer accumulator that the operator requantizes is the dot product of the
    /// zero-point-corrected input window with the zero-point-corrected filter:
    /// `sum over taps and channels of (x - input_zero_point) * (f - filter_zero_point)`.
    pub proof fn lemma_accumulator_is_centered_dot(&self, b: int, out_row: int, out_col: int)
        ensures
            self.accumulator(b, out_row, out_col) == self.centered_dot(b, out_row, out_col),
    {
        self.lemma_centered_upto(b, out_row, out_col, self.window.filter_rows as nat, 0);
        let fr = self.window.filter_rows as int;
        let fc = self.window.filter_cols as int;
        let ch = self.window.input_chans as int;
        let izp = self.window.input_zero_point.value();
        let fzp = self.filter_zero_point(b);
        let full = self.window.filter_rows as nat;
        assert((fr * fc + 0) * ch == fr * fc * ch) by (nonlinear_arith);
        assert(self.input_upto(out_row, out_col, full, 0) * fzp == fzp * self.input_upto(out_row, out_col, full, 0)) by (nonlinear_arith);
    }

    /// Value `ch` of the input pixel under tap `(kh, kw)` of output `(out_row, out_col)` in
    /// the whole input `input`, the input zero point outside the input.
    pub open spec fn reference_input_value(&self, input: Seq<Seq<T>>, out_row: int, out_col: int, kh: int, kw: int, ch: int) -> int {
        let r = self.window.tap_row(out_row, kh);
        let c = self.window.tap_col(out_col, kw);
        if self.window.in_input(r, c) {
            input[r * self.window.input_cols + c][ch].value()
        } else {
            self.window.input_zero_point.value()
        }
    }

    /// As `chan_centered`, over the whole input.
    pub open spec fn reference_chan_centered(&self, input: Seq<Seq<T>>, b: int, out_row: int, out_col: int, kh: int, kw: int, n: nat) -> int
        decreases n,
    {
        if n == 0 {
            0
        } else {
            self.reference_chan_centered(input, b, out_row, out_col, kh, kw, (n - 1) as nat)
                + (self.reference_input_value(input, out_row, out_col, kh, kw, n - 1) - self.window.input_zero_point.value())
                * (self.filter_value(b, kh, kw, n - 1) - self.filter_zero_point(b))
        }
    }

    /// As `centered_upto`, over the whole input.
    pub open spec fn reference_centered_upto(&self, input: Seq<Seq<T>>, b: int, out_row: int, out_col: int, kh: nat, kw: nat) -> int
        decreases kh, kw,
    {
        if kw == 0 {
            if kh == 0 {
                0
            } else {
                self.reference_centered_upto(input, b, out_row, out_col, (kh - 1) as nat, self.window.filter_cols as nat)
            }
        } else {
            self.reference_centered_upto(input, b, out_row, out_col, kh, (kw - 1) as nat)
                + self.reference_chan_centered(input, b, out_row, out_col, kh as int, kw - 1, self.window.input_chans as nat)
        }
    }

    /// The reference Conv2D's zero-point-corrected dot product of filter `b` at output
    /// `(out_row, out_col)` of `input`.
    pub open spec fn reference_dot(&self, input: Seq<Seq<T>>, b: int, out_row: int, out_col: int) -> int {
        self.reference_centered_upto(input, b, out_row, out_col, self.window.filter_rows as nat, 0)
    }

    /// `y` is the value of filter `b` at output `(out_row, out_col)` of the reference Conv2D of
    /// `input`.
    pub open spec fn is_reference_output_value(&self, input: Seq<Seq<T>>, b: int, out_row: int, out_col: int, y: T) -> bool {
        exists|r: T|
            #[trigger] call_ensures(
                self.requantize,
                (b as usize, self.reference_dot(input, b, out_row, out_col) as i64),
                r,
            ) && y == spec_activate(
                self.options.fused_activation,
                r,
                self.output_zero_point,
                self.output_relu6_limit,
            )
    }

    /// `y` is output pixel `(out_row, out_col)` of the reference Conv2D of `input`.
    pub open spec fn is_reference_output(&self, input: Seq<Seq<T>>, out_row: int, out_col: int, y: Seq<T>) -> bool {
        &&& y.len() == self.filters.batches
        &&& forall|b: int|
            0 <= b < y.len() ==> self.is_reference_output_value(input, b, out_row, out_col, #[trigger] y[b])
    }

    proof fn lemma_chan_centered_is_reference(&self, k: int, b: int, kh: int, kw: int, n: nat)
        requires
            self.wf(),
            0 <= k,
            self.window.due(k),
            self.window.serves(k),
            0 <= kh < self.window.filter_rows,
            0 <= kw < self.window.filter_cols,
        ensures
            self.chan_centered(b, k / self.window.out_cols(), k % self.window.out_cols(), kh, kw, n)
                == self.reference_chan_centered(self.window.pixels@, b, k / self.window.out_cols(), k % self.window.out_cols(), kh, kw, n),
        decreases n,
    {
        if n > 0 {
            self.lemma_chan_centered_is_reference(k, b, kh, kw, (n - 1) as nat);
            let oc = self.window.out_cols();
            let r = self.window.tap_row(k / oc, kh);
            let c = self.window.tap_col(k % oc, kw);
            if self.window.in_input(r, c) {
                self.window.lemma_due_taps_see_input(k, kh, kw);
            }
        }
    }

    proof fn lemma_centered_upto_is_reference(&self, k: int, b: int, kh: nat, kw: nat)
        requires
            self.wf(),
            0 <= k,
            self.window.due(k),
            self.window.serves(k),
            kh <= self.window.filter_rows,
            kw <= self.window.filter_cols,
            kh == self.window.filter_rows ==> kw == 0,
        ensures
            self.centered_upto(b, k / self.window.out_cols(), k % self.window.out_cols(), kh, kw)
                == self.reference_centered_upto(self.window.pixels@, b, k / self.window.out_cols(), k % self.window.out_cols(), kh, kw),
        decreases kh, kw,
    {
        if kw == 0 {
            if kh > 0 {
                self.lemma_centered_upto_is_reference(k, b, (kh - 1) as nat, self.window.filter_cols as nat);
            }
        } else {
            self.lemma_centered_upto_is_reference(k, b, kh, (kw - 1) as nat);
            self.lemma_chan_centered_is_reference(k, b, kh as int, kw - 1, self.window.input_chans as nat);
        }
    }

    /// Streaming gives the reference result: when the ring serves the output (`serves`), the
    /// output that a push emits is the reference Conv2D of the pixels pushed, at that output's
    /// position.
    pub proof fn lemma_streaming_matches_reference(&self, k: int, y: Seq<T>)
        requires
            self.wf(),
            0 <= k,
            self.window.due(k),
            self.window.serves(k),
            self.is_output(k / self.window.out_cols(), k % self.window.out_cols(), y),
        ensures
            self.is_reference_output(self.window.pixels@, k / self.window.out_cols(), k % self.window.out_cols(), y),
    {
        let oc = self.window.out_cols();
        assert forall|b: int| 0 <= b < y.len() implies self.is_reference_output_value(self.window.pixels@, b, k / oc, k % oc, #[trigger] y[b]) by {
            self.lemma_accumulator_is_centered_dot(b, k / oc, k % oc);
            self.lemma_centered_upto_is_reference(k, b, self.window.filter_rows as nat, 0);
            assert(self.is_output_value(b, k / oc, k % oc, y[b]));
        }
    }

    proof fn lemma_reference_chan_agree(
        &self,
        other: &Self,
        a: Seq<Seq<T>>,
        bb: Seq<Seq<T>>,
        b: int,
        out_row: int,
        out_col: int,
        kh: int,
        kw: int,
        n: nat,
    )
        requires
            other.window.same_config(&self.window),
            other.filters == self.filters,
            self.window.in_input(self.window.tap_row(out_row, kh), self.window.tap_col(out_col, kw))
                ==> a[self.window.tap_row(out_row, kh) * self.window.input_cols + self.window.tap_col(out_col, kw)]
                == bb[self.window.tap_row(out_row, kh) * self.window.input_cols + self.window.tap_col(out_col, kw)],
        ensures
            self.reference_chan_centered(a, b, out_row, out_col, kh, kw, n) == other.reference_chan_centered(bb, b, out_row, out_col, kh, kw, n),
        decreases n,
    {
        if n > 0 {
            self.lemma_reference_chan_agree(other, a, bb, b, out_row, out_col, kh, kw, (n - 1) as nat);
        }
    }

    /// The reference dot product reads the input only at the taps of the output that lie
    /// inside the input, and depends on the operator only through its configuration and
    /// filters.
    proof fn lemma_reference_agree(
        &self,
        other: &Self,
        a: Seq<Seq<T>>,
        bb: Seq<Seq<T>>,
        b: int,
        out_row: int,
        out_col: int,
        kh: nat,
        kw: nat,
    )
        requires
            other.window.same_config(&self.window),
            other.filters == self.filters,
            kh <= self.window.filter_rows,
            kw <= self.window.filter_cols,
            kh == self.window.filter_rows ==> kw == 0,
            forall|i: int, j: int|
                #![trigger self.window.tap_row(out_row, i), self.window.tap_col(out_col, j)]
                0 <= i < self.window.filter_rows && 0 <= j < self.window.filter_cols
                    && self.window.in_input(self.window.tap_row(out_row, i), self.window.tap_col(out_col, j))
                    ==> a[self.window.tap_row(out_row, i) * self.window.input_cols + self.window.tap_col(out_col, j)]
                    == bb[self.window.tap_row(out_row, i) * self.window.input_cols + self.window.tap_col(out_col, j)],
        ensures
            self.reference_centered_upto(a, b, out_row, out_col, kh, kw) == other.reference_centered_upto(bb, b, out_row, out_col, kh, kw),
        decreases kh, kw,
    {
        if kw == 0 {
            if kh > 0 {
                self.lemma_reference_agree(other, a, bb, b, out_row, out_col, (kh - 1) as nat, self.window.filter_cols as nat);
            }
        } else {
            self.lemma_reference_agree(other, a, bb, b, out_row, out_col, kh, (kw - 1) as nat);
            let i = kh as int;
            let j = kw - 1;
            if self.window.in_input(self.window.tap_row(out_row, i), self.window.tap_col(out_col, j)) {
                assert(a[self.window.tap_row(out_row, i) * self.window.input_cols + self.window.tap_col(out_col, j)]
                    == bb[self.window.tap_row(out_row, i) * self.window.input_cols + self.window.tap_col(out_col, j)]);
            }
            self.lemma_reference_chan_agree(other, a, bb, b, out_row, out_col, i, j, self.window.input_chans as nat);
        }
    }

    proof fn lemma_pipeline_pixels(&self, input: &Tensor4D<T>, states: Seq<Self>, outs: Seq<Option<Seq<T>>>, i: int)
        requires
            self.wf(),
            self.window.in_cycle == 0,
            is_run(*self, input, states, outs),
            0 <= i < states.len(),
        ensures
            states[i].window.pixels@ == feed_prefix(input, i as nat),
            states[i].filters == self.filters,
            states[i].output_zero_point == self.output_zero_point,
            states[i].output_relu6_limit == self.output_relu6_limit,
            states[i].options == self.options,
            states[i].requantize == self.requantize,
        decreases i,
    {
        if i == 0 {
            assert(self.window.pixels@ =~= feed_prefix(input, 0));
        } else {
            self.lemma_pipeline_pixels(input, states, outs, i - 1);
            let j = i - 1;
            assert(states[j].push_rel(feed(input, j), states[j + 1], outs[j]));
            assert(states[i].window.pixels@ =~= feed_prefix(input, i as nat));
        }
    }

    proof fn lemma_run_emissions(
        &self,
        input: &Tensor4D<T>,
        states: Seq<Self>,
        outs: Seq<Option<Seq<T>>>,
    )
        requires
            self.wf(),
            self.window.in_cycle == 0,
            self.window.out_cycle == 0,
            self.window.ring_spans_window(),
            input.wf(),
            input.batches == 1,
            input.rows == self.window.input_rows,
            input.cols == self.window.input_cols,
            input.chans == self.window.input_chans,
            is_run(*self, input, states, outs),
        ensures
            emitted(outs).len() == states.last().window.out_cycle,
            states.last().window.out_cycle <= self.window.total_output(),
            states.last().finished() ==> emitted(outs).len() == self.window.total_output(),
            forall|p: int|
                0 <= p < emitted(outs).len() ==> self.is_reference_output(
                    input_pixels(input),
                    p / self.window.out_cols(),
                    p % self.window.out_cols(),
                    #[trigger] emitted(outs)[p],
                ),
    {
        let n = outs.len() as int;
        let es = emit_flags(outs);
        let ws = Seq::new(states.len(), |i: int| states[i].window);
        assert forall|i: int| 0 <= i < es.len() implies #[trigger] window_step(ws[i], ws[i + 1], es[i]) by {
            assert(states[i].push_rel(feed(input, i), states[i + 1], outs[i]));
        }
        let total_out = self.window.total_output();
        let oc = self.window.out_cols();
        assert(ws[0] == self.window);
        assert forall|i: int| 0 <= i < ws.len() implies (#[trigger] ws[i]).out_cycle <= ws[i].total_output() by {
            assert(states[i].inv());
        }
        lemma_run_config(ws, es, n);
        crate::streaming_ops::stream_pipeline::lemma_emitted_count(outs, n);
        assert(states[n].inv());
        assert(states.last() == states[n]);
        assert(outs.take(n) =~= outs);
        assert forall|p: int| 0 <= p < emitted(outs).len() implies self.is_reference_output(
            input_pixels(input),
            p / oc,
            p % oc,
            #[trigger] emitted(outs)[p],
        ) by {
            lemma_emission_reaches(ws, es, n, p);
            let i = choose|i: int| 0 <= i < n && #[trigger] es[i] && ws[i].out_cycle == p;
            lemma_run_config(ws, es, i);
            lemma_emitted_at(outs, i);
            let s = states[i + 1];
            let y = emitted(outs)[p];
            assert(states[i].push_rel(feed(input, i), states[i + 1], outs[i]));
            lemma_run_config(ws, es, i + 1);
            self.lemma_pipeline_pixels(input, states, outs, i + 1);
            assert(s.inv());
            assert(s.window.serves(p)) by {
                if !(s.window.buf_size() >= s.window.total_input() || s.window.filter_rows == 0
                    || s.window.filter_cols == 0) {
                    lemma_run_prompt(ws, es, i);
                }
            }
            s.lemma_streaming_matches_reference(p, y);
            assert forall|b: int| 0 <= b < y.len() implies self.is_reference_output_value(input_pixels(input), b, p / oc, p % oc, #[trigger] y[b]) by {
                assert forall|a: int, c: int|
                    #![trigger s.window.tap_row(p / oc, a), s.window.tap_col(p % oc, c)]
                    0 <= a < s.window.filter_rows && 0 <= c < s.window.filter_cols
                        && s.window.in_input(s.window.tap_row(p / oc, a), s.window.tap_col(p % oc, c))
                        implies s.window.pixels@[s.window.tap_row(p / oc, a) * s.window.input_cols + s.window.tap_col(p % oc, c)]
                        == input_pixels(input)[s.window.tap_row(p / oc, a) * s.window.input_cols + s.window.tap_col(p % oc, c)] by {
                    s.window.lemma_due_taps_see_input(p, a, c);
                }
                s.lemma_reference_agree(self, s.window.pixels@, input_pixels(input), b, p / oc, p % oc, s.window.filter_rows as nat, 0);
                assert(s.is_reference_output_value(s.window.pixels@, b, p / oc, p % oc, y[b]));
            }
        }
    }

    /// The relation "`y` is output `p` (in raster order) of the reference over `input`".
    pub open spec fn reference_relation(self, input: &Tensor4D<T>) -> spec_fn(int, Seq<T>) -> bool {
        |p: int, y: Seq<T>| self.is_reference_output(input_pixels(input), p / self.window.out_cols(), p % self.window.out_cols(), y)
    }

    /// Every run of a fresh Conv2D whose ring spans a filter window, over any input of its
    /// shape, emits its outputs in raster order, each the reference Conv2D of the input at
    /// its position, all of them once it is finished. It finishes within the pipeline's
    /// feed and drain; within `(rows + filter_rows) * cols + filter_cols` pushes plus one per
    /// output when its filter has taps; and within its input alone when every output needs
    /// only input pixels, as with Valid padding and a filter that fits the input.
    pub proof fn lemma_emits_reference(&self, input: &Tensor4D<T>)
        requires
            self.wf(),
            self.window.in_cycle == 0,
            self.window.out_cycle == 0,
            self.window.ring_spans_window(),
            input.wf(),
            input.batches == 1,
            input.rows == self.window.input_rows,
            input.cols == self.window.input_cols,
            input.chans == self.window.input_chans,
        ensures
            emits_as(*self, input, self.window.total_output() as nat, self.reference_relation(input)),
            finishes_within(
                *self,
                input,
                (input.rows * input.cols + drain_limit(input, self.window.out_rows(), self.window.out_cols(), self.window.drain_extra() as int)) as nat,
            ),
            self.window.filter_cols >= 1 && max_required(self.window, self.window.total_output() as nat)
                <= self.window.total_input() ==> finishes_on_input(*self, input),
            self.window.view_padding == TensorViewPadding::Valid && 1 <= self.window.filter_rows <= input.rows
                && 1 <= self.window.filter_cols <= input.cols ==> finishes_on_input(*self, input),
            self.window.filter_rows >= 1 && self.window.filter_cols >= 1 ==> finishes_within(
                *self,
                input,
                ((input.rows + self.window.filter_rows) * input.cols + self.window.filter_cols
                    + self.window.total_output()) as nat,
            ),
    {
        let total_out = self.window.total_output();
        self.window.lemma_out_extents();
        assert(total_out >= 0) by (nonlinear_arith)
            requires total_out == self.window.out_rows() * self.window.out_cols(), self.window.out_rows() >= 0, self.window.out_cols() >= 1;
        assert forall|states: Seq<Self>, outs: Seq<Option<Seq<T>>>|
            #[trigger] is_run(*self, input, states, outs) implies {
                &&& emitted(outs).len() <= total_out as nat
                &&& forall|p: int| 0 <= p < emitted(outs).len() ==> self.reference_relation(input)(p, #[trigger] emitted(outs)[p])
                &&& states.last().finished() ==> emitted(outs).len() == total_out as nat
            } by {
            self.lemma_run_emissions(input, states, outs);
            assert forall|p: int| 0 <= p < emitted(outs).len() implies self.reference_relation(input)(p, #[trigger] emitted(outs)[p]) by {
                assert(self.reference_relation(input)(p, emitted(outs)[p]));
            }
        }
        let m = (input.rows * input.cols + drain_limit(input, self.window.out_rows(), self.window.out_cols(), self.window.drain_extra() as int)) as nat;
        assert forall|states: Seq<Self>, outs: Seq<Option<Seq<T>>>|
            #[trigger] is_run(*self, input, states, outs) && outs.len() >= m implies states.last().finished() by {
            lemma_drain_reaches_outputs(self.window);
            let n = outs.len() as int;
            let es = emit_flags(outs);
            let ws = Seq::new(states.len(), |i: int| states[i].window);
            assert forall|i: int| 0 <= i < es.len() implies #[trigger] window_step(ws[i], ws[i + 1], es[i]) by {
                assert(states[i].push_rel(feed(input, i), states[i + 1], outs[i]));
            }
            assert(ws[0] == self.window);
            assert forall|i: int| 0 <= i < ws.len() implies (#[trigger] ws[i]).out_cycle <= ws[i].total_output() by {
                assert(states[i].inv());
            }
            lemma_run_progress(ws, es, n);
            lemma_run_config(ws, es, n);
            assert(states.last() == states[n]);
        }
        if self.window.filter_rows >= 1 && self.window.filter_cols >= 1 {
            let tight = ((input.rows + self.window.filter_rows) * input.cols + self.window.filter_cols + total_out) as nat;
            assert forall|states: Seq<Self>, outs: Seq<Option<Seq<T>>>|
                #[trigger] is_run(*self, input, states, outs) && outs.len() >= tight implies states.last().finished() by {
                let n = outs.len() as int;
                let es = emit_flags(outs);
                let ws = Seq::new(states.len(), |i: int| states[i].window);
                assert forall|i: int| 0 <= i < es.len() implies #[trigger] window_step(ws[i], ws[i + 1], es[i]) by {
                    assert(states[i].push_rel(feed(input, i), states[i + 1], outs[i]));
                }
                assert(ws[0] == self.window);
                assert forall|i: int| 0 <= i < ws.len() implies (#[trigger] ws[i]).out_cycle <= ws[i].total_output() by {
                    assert(states[i].inv());
                }
                lemma_run_finishes(ws, es, n);
                lemma_run_config(ws, es, n);
                assert(states.last() == states[n]);
            }
        }
        if self.window.view_padding == TensorViewPadding::Valid && 1 <= self.window.filter_rows <= input.rows
            && 1 <= self.window.filter_cols <= input.cols {
            lemma_valid_outputs_due_on_input(self.window, total_out as nat);
        }
        if self.window.filter_cols >= 1 && max_required(self.window, total_out as nat) <= self.window.total_input() {
            assert forall|states: Seq<Self>, outs: Seq<Option<Seq<T>>>|
                #[trigger] is_run(*self, input, states, outs) && outs.len() >= input.rows * input.cols implies states.last().finished() by {
                let n = outs.len() as int;
                let es = emit_flags(outs);
                let ws = Seq::new(states.len(), |i: int| states[i].window);
            assert forall|i: int| 0 <= i < es.len() implies #[trigger] window_step(ws[i], ws[i + 1], es[i]) by {
                assert(states[i].push_rel(feed(input, i), states[i + 1], outs[i]));
            }
                assert(ws[0] == self.window);
                lemma_run_caught_up(ws, es, n);
                lemma_run_config(ws, es, n);
                assert(states.last() == states[n]);
                assert(states[n].inv());
                let k = ws[n].out_cycle as int;
                if k < total_out {
                    lemma_max_required_bounds(self.window, total_out as nat, k);
                }
            }
        }
    }

    /// Streaming Conv2D over a whole tensor gives the reference Conv2D: in every run of the
    /// pipeline with a fresh operator whose ring spans a filter window, the operator finishes
    /// and its `p`-th emitted pixel is output `p` (in raster order) of the reference Conv2D of
    /// the input.
    pub proof fn lemma_pipeline_matches_reference(
        &self,
        input: &Tensor4D<T>,
        states: Seq<Self>,
        outs: Seq<Option<Seq<T>>>,
    )
        requires
            self.wf(),
            self.window.in_cycle == 0,
            self.window.out_cycle == 0,
            self.window.ring_spans_window(),
            input.wf(),
            input.batches == 1,
            input.rows == self.window.input_rows,
            input.cols == self.window.input_cols,
            input.chans == self.window.input_chans,
            is_run(*self, input, states, outs),
            stops(input, states, outs, self.window.out_rows(), self.window.out_cols()),
        ensures
            states.last().window.finished(),
            emitted(outs).len() >= self.window.total_output(),
            forall|p: int|
                0 <= p < self.window.total_output() ==> self.is_reference_output(
                    input_pixels(input),
                    p / self.window.out_cols(),
                    p % self.window.out_cols(),
                    #[trigger] emitted(outs)[p],
                ),
    {
        lemma_drain_reaches_outputs(self.window);
        let n = outs.len() as int;
        let es = emit_flags(outs);
        let ws = Seq::new(states.len(), |i: int| states[i].window);
        assert forall|i: int| 0 <= i < es.len() implies #[trigger] window_step(ws[i], ws[i + 1], es[i]) by {
            assert(states[i].push_rel(feed(input, i), states[i + 1], outs[i]));
        }
        let total_out = self.window.total_output();
        let oc = self.window.out_cols();
        assert(ws[0] == self.window);
        assert forall|i: int| 0 <= i < ws.len() implies (#[trigger] ws[i]).out_cycle <= ws[i].total_output() by {
            assert(states[i].inv());
        }
        lemma_run_progress(ws, es, n);
        lemma_run_config(ws, es, n);
        assert(states[n].window.finished()) by {
            if !states[n].finished() {
                assert(n == input.rows * input.cols + drain_limit(input, self.window.out_rows(), self.window.out_cols(), self.window.drain_extra() as int));
            }
        }
        crate::streaming_ops::stream_pipeline::lemma_emitted_count(outs, n);
        assert(outs.take(n) =~= outs);
        assert forall|p: int| 0 <= p < total_out implies self.is_reference_output(
            input_pixels(input),
            p / oc,
            p % oc,
            #[trigger] emitted(outs)[p],
        ) by {
            lemma_emission_reaches(ws, es, n, p);
            let i = choose|i: int| 0 <= i < n && #[trigger] es[i] && ws[i].out_cycle == p;
            lemma_run_config(ws, es, i);
            lemma_emitted_at(outs, i);
            let s = states[i + 1];
            let y = emitted(outs)[p];
            assert(states[i].push_rel(feed(input, i), states[i + 1], outs[i]));
            lemma_run_config(ws, es, i + 1);
            self.lemma_pipeline_pixels(input, states, outs, i + 1);
            assert(s.inv());
            assert(s.window.serves(p)) by {
                if !(s.window.buf_size() >= s.window.total_input() || s.window.filter_rows == 0
                    || s.window.filter_cols == 0) {
                    lemma_run_prompt(ws, es, i);
                }
            }
            s.lemma_streaming_matches_reference(p, y);
            assert forall|b: int| 0 <= b < y.len() implies self.is_reference_output_value(input_pixels(input), b, p / oc, p % oc, #[trigger] y[b]) by {
                assert forall|a: int, c: int|
                    #![trigger s.window.tap_row(p / oc, a), s.window.tap_col(p % oc, c)]
                    0 <= a < s.window.filter_rows && 0 <= c < s.window.filter_cols
                        && s.window.in_input(s.window.tap_row(p / oc, a), s.window.tap_col(p % oc, c))
                        implies s.window.pixels@[s.window.tap_row(p / oc, a) * s.window.input_cols + s.window.tap_col(p % oc, c)]
                        == input_pixels(input)[s.window.tap_row(p / oc, a) * s.window.input_cols + s.window.tap_col(p % oc, c)] by {
                    s.window.lemma_due_taps_see_input(p, a, c);
                }
                s.lemma_reference_agree(self, s.window.pixels@, input_pixels(input), b, p / oc, p % oc, s.window.filter_rows as nat, 0);
                assert(s.is_reference_output_value(s.window.pixels@, b, p / oc, p % oc, y[b]));
            }
        }
    }

    /// The output tensor of `stream_pipeline` over a fresh Conv2D whose ring spans a filter
    /// window, with the operator's output dimensions, is the reference Conv2D of the input.
    pub proof fn lemma_pipeline_output_is_reference(&self, input: &Tensor4D<T>, output: &Tensor4D<T>)
        requires
            self.wf(),
            self.window.in_cycle == 0,
            self.window.out_cycle == 0,
            self.window.ring_spans_window(),
            input.wf(),
            input.batches == 1,
            input.rows == self.window.input_rows,
            input.cols == self.window.input_cols,
            input.chans == self.window.input_chans,
            exists|states: Seq<Self>, outs: Seq<Option<Seq<T>>>|
                {
                    &&& is_run(*self, input, states, outs)
                    &&& stops(input, states, outs, self.window.out_rows(), self.window.out_cols())
                    &&& forall|p: int|
                        0 <= p < self.window.out_rows() * self.window.out_cols() ==> #[trigger] output.pixel(0, p) == placed(
                            outs,
                            input.zero_point@[0],
                            self.filters.batches as nat,
                            p,
                        )
                },
        ensures
            forall|p: int|
                0 <= p < self.window.total_output() ==> self.is_reference_output(
                    input_pixels(input),
                    p / self.window.out_cols(),
                    p % self.window.out_cols(),
                    #[trigger] output.pixel(0, p),
                ),
    {
        let (states, outs) = choose|states: Seq<Self>, outs: Seq<Option<Seq<T>>>|
            {
                &&& is_run(*self, input, states, outs)
                &&& stops(input, states, outs, self.window.out_rows(), self.window.out_cols())
                &&& forall|p: int|
                    0 <= p < self.window.out_rows() * self.window.out_cols() ==> #[trigger] output.pixel(0, p) == placed(
                        outs,
                        input.zero_point@[0],
                        self.filters.batches as nat,
                        p,
                    )
            };
        self.lemma_pipeline_matches_reference(input, states, outs);
        assert forall|p: int| 0 <= p < self.window.total_output() implies self.is_reference_output(
            input_pixels(input),
            p / self.window.out_cols(),
            p % self.window.out_cols(),
            #[trigger] output.pixel(0, p),
        ) by {
            assert(output.pixel(0, p) == placed(outs, input.zero_point@[0], self.filters.batches as nat, p));
        }
    }

    /// Creates the operator with an empty window whose ring keeps `filters.rows` rows of the
    /// input and `filters.cols` pixels more (so it spans a filter window), and computes the sum
    /// of each filter.
    pub fn new(
        input_rows: usize,
        input_cols: usize,
        input_zero_point: T,
        filters: Tensor4D<T>,
        output_zero_point: T,
        output_relu6_limit: T,
        options: Conv2DOptions,
        requantize: Q,
    ) -> (op: Self)
        requires
            filters.wf(),
            input_cols > 0,
            options.strides.0 > 0,
            options.strides.1 > 0,
            options.view_padding == TensorViewPadding::Same ==> filters.rows > 0 && filters.cols > 0,
            ({
                let out_rows = out_extent(options.view_padding, input_rows as int, filters.rows as int, options.strides.0 as int);
                let out_cols = out_extent(options.view_padding, input_cols as int, filters.cols as int, options.strides.1 as int);
                &&& input_rows * input_cols <= usize::MAX
                &&& out_rows * out_cols <= usize::MAX
                &&& (out_rows * options.strides.0 + filters.rows) * input_cols + out_cols
                    * options.strides.1 + filters.cols + 1 <= usize::MAX
            }),
            filters.rows * filters.cols * filters.chans <= usize::MAX,
            filters.rows * filters.cols * filters.chans * 262144 <= i64::MAX,
            forall|b: usize, acc: i64| #[trigger] call_requires(requantize, (b, acc)),
        ensures
            op.wf(),
            op.window.input_rows == input_rows,
            op.window.input_cols == input_cols,
            op.window.input_chans == filters.chans,
            op.window.filter_rows == filters.rows,
            op.window.filter_cols == filters.cols,
            op.window.buffer@.len() == filters.rows * input_cols + filters.cols,
            op.window.ring_spans_window(),
            op.window.input_zero_point == input_zero_point,
            op.window.in_cycle == 0,
            op.window.out_cycle == 0,
            op.window.pixels@ == Seq::<Seq<T>>::empty(),
            op.filters == filters,
            op.output_zero_point == output_zero_point,
            op.output_relu6_limit == output_relu6_limit,
            op.options == options,
            op.requantize == requantize,
    {
        proof {
            let out_rows = out_extent(options.view_padding, input_rows as int, filters.rows as int, options.strides.0 as int);
            crate::streaming_ops::window::lemma_extent_nonneg(options.view_padding, input_rows as int, filters.rows as int, options.strides.0 as int);
            let a = out_rows * options.strides.0;
            assert(a >= 0) by (nonlinear_arith)
                requires out_rows >= 0, options.strides.0 >= 1, a == out_rows * options.strides.0;
            assert(filters.rows * input_cols <= (a + filters.rows) * input_cols) by (nonlinear_arith)
                requires a >= 0, input_cols >= 1;
            assert((filters.rows - 1) * input_cols <= filters.rows * input_cols) by (nonlinear_arith)
                requires input_cols >= 1;
        }
        let buf_size = filters.rows * input_cols + filters.cols;
        let window = StreamWindow::new(
            input_rows,
            input_cols,
            filters.chans,
            filters.rows,
            filters.cols,
            buf_size,
            input_zero_point,
            options.view_padding,
            options.strides,
        );
        let mut op = StreamingConv2D {
            window,
            filters,
            output_zero_point,
            output_relu6_limit,
            options,
            requantize,
            filter_sums: Vec::new(),
        };
        let sums = op.compute_filter_sums();
        let ghost before = op;
        op.filter_sums = sums;
        proof {
            assert forall|b: int| 0 <= b < op.filters.batches implies #[trigger] op.filter_sums@[b]
                == op.filter_total(b) by {
                op.lemma_filter_total_config(&before, b, op.window.filter_rows as nat, 0);
            }
        }
        op
    }

    /// Computes output `(out_row, out_col)` from what the window holds: one value per filter.
    fn compute(&self, out_row: usize, out_col: usize) -> (y: Vec<T>)
        requires
            self.wf(),
            out_row < self.window.out_rows(),
            out_col < self.window.out_cols(),
        ensures
            self.is_output(out_row as int, out_col as int, y@),
    {
        let mut y: Vec<T> = Vec::new();
        let mut b: usize = 0;
        while b < self.filters.batches
            invariant
                self.wf(),
                out_row < self.window.out_rows(),
                out_col < self.window.out_cols(),
                b <= self.filters.batches,
                y@.len() == b,
                forall|k: int| 0 <= k < b ==> self.is_output_value(k, out_row as int, out_col as int, #[trigger] y@[k]),
            decreases self.filters.batches - b,
        {
            let acc = self.accumulate(b, out_row, out_col);
            let r = (self.requantize)(b, acc);
            let v = activate(
                self.options.fused_activation,
                r,
                self.output_zero_point,
                self.output_relu6_limit,
            );
            proof {
                let a = self.accumulator(b as int, out_row as int, out_col as int);
                assert(a as i64 == acc);
                assert(call_ensures(self.requantize, (b as usize, a as i64), r));
            }
            assert(self.is_output_value(b as int, out_row as int, out_col as int, v));
            y.push(v);
            b = b + 1;
        }
        y
    }

    /// What one push does: the window takes `pixel`, and `out` is the output that became
    /// due, if one did, as the window sees the input after the push.
    pub open spec fn push_post(&self, pixel: Seq<T>, next: Self, out: Option<Seq<T>>) -> bool {
        let k = self.window.out_cycle as int;
        let oc = self.window.out_cols();
        &&& next.window.same_config(&self.window)
        &&& next.filters == self.filters
        &&& next.filter_sums == self.filter_sums
        &&& next.output_zero_point == self.output_zero_point
        &&& next.output_relu6_limit == self.output_relu6_limit
        &&& next.options == self.options
        &&& next.requantize == self.requantize
        &&& next.window.pixels@ == self.window.pixels@.push(pixel)
        &&& next.window.in_cycle == self.window.in_cycle + 1
        &&& match out {
            Some(y) => {
                &&& next.window.due(k)
                &&& next.window.out_cycle == k + 1
                &&& next.is_output(k / oc, k % oc, y)
            },
            None => {
                &&& !next.window.due(k)
                &&& next.window.out_cycle == k
            },
        }
    }

    /// A finished operator stays finished and emits nothing more.
    pub proof fn lemma_finished_stays_finished(&self, pixel: Seq<T>, next: Self, out: Option<Seq<T>>)
        requires
            self.window.finished(),
            self.push_post(pixel, next, out),
        ensures
            out is None,
            next.window.finished(),
    {
    }

    /// Takes the next input pixel and returns the output pixel that it completes, if any.
    pub fn push(&mut self, pixel: Vec<T>) -> (out: Option<Vec<T>>)
        requires
            old(self).wf(),
            pixel@.len() == old(self).window.input_chans,
            old(self).window.in_cycle < usize::MAX,
        ensures
            final(self).wf(),
            old(self).push_post(pixel@, *final(self), opt_view(out)),
    {
        let ghost old_op = *self;
        let due = self.window.advance(&pixel);
        proof {
            assert forall|b: int| 0 <= b < self.filters.batches implies #[trigger] self.filter_sums@[b]
                == self.filter_total(b) by {
                self.lemma_filter_total_config(&old_op, b, self.window.filter_rows as nat, 0);
            }
        }
        match due {
            Some((out_row, out_col)) => {
                proof {
                    self.window.lemma_required_cycles_fit(self.window.out_cycle - 1);
                }
                Some(self.compute(out_row, out_col))
            },
            None => None,
        }
    }

    /// The filter sums depend only on the filters and the window's configuration.
    proof fn lemma_filter_total_config(&self, other: &Self, b: int, kh: nat, kw: nat)
        requires
            self.filters == other.filters,
            self.window.filter_cols == other.window.filter_cols,
            self.window.input_chans == other.window.input_chans,
        ensures
            self.filter_upto(b, kh, kw) == other.filter_upto(b, kh, kw),
        decreases kh, kw,
    {
        if kw == 0 {
            if kh > 0 {
                self.lemma_filter_total_config(other, b, (kh - 1) as nat, self.window.filter_cols as nat);
            }
        } else {
            self.lemma_filter_total_config(other, b, kh, (kw - 1) as nat);
            self.lemma_chan_filter_config(other, b, kh as int, kw - 1, self.window.input_chans as nat);
        }
    }

    proof fn lemma_chan_filter_config(&self, other: &Self, b: int, kh: int, kw: int, n: nat)
        requires
            self.filters == other.filters,
            self.window.filter_cols == other.window.filter_cols,
        ensures
            self.chan_filter(b, kh, kw, n) == other.chan_filter(b, kh, kw, n),
        decreases n,
    {
        if n > 0 {
            self.lemma_chan_filter_config(other, b, kh, kw, (n - 1) as nat);
        }
    }

    /// The pixel that the operator sees at input position `(src_row, src_col)`. Where the
    /// window sees nothing (outside the input, not yet pushed, or no longer held), `Same`
    /// padding answers the pixel at the input zero point and `Valid` padding answers none.
    pub fn sample(&self, src_row: isize, src_col: isize) -> (p: Option<Vec<T>>)
        requires
            self.wf(),
        ensures
            opt_view(p) == match self.window.sees(src_row as int, src_col as int) {
                Some(v) => Some(v),
                None => if self.options.view_padding == TensorViewPadding::Same {
                    Some(zero_pixel(self.window.input_zero_point, self.window.input_chans as nat))
                } else {
                    None
                },
            },
    {
        match self.window.sees_pixel(src_row, src_col) {
            Some(v) => Some(v),
            None => match self.options.view_padding {
                TensorViewPadding::Same => Some(filled_pixel(self.window.input_zero_point, self.window.input_chans)),
                TensorViewPadding::Valid => None,
            },
        }
    }

    /// All outputs have been emitted.
    pub fn is_finished(&self) -> (r: bool)
        requires
            self.wf(),
        ensures
            r == self.window.finished(),
    {
        self.window.is_finished()
    }

    /// The zero point of the output.
    pub fn output_zero_point(&self) -> (zp: T)
        ensures
            zp == self.output_zero_point,
    {
        self.output_zero_point
    }
}

impl<T: Quantized, Q: Fn(usize, i64) -> T> StreamOp<T> for StreamingConv2D<T, Q> {
    open spec fn inv(&self) -> bool {
        self.wf()
    }

    open spec fn in_len(&self) -> nat {
        self.window.input_chans as nat
    }

    open spec fn out_len(&self) -> nat {
        self.filters.batches as nat
    }

    open spec fn finished(&self) -> bool {
        self.window.finished()
    }

    open spec fn room(&self) -> nat {
        (usize::MAX - self.window.in_cycle) as nat
    }

    open spec fn zero_point(&self) -> T {
        self.output_zero_point
    }

    open spec fn drain_extra(&self) -> nat {
        self.window.drain_extra()
    }

    open spec fn out_count(&self) -> nat {
        self.window.total_output() as nat
    }

    proof fn lemma_push_keeps_metadata(&self, input: Seq<T>, next: Self, out: Option<Seq<T>>) {
    }

    open spec fn push_rel(&self, input: Seq<T>, next: Self, out: Option<Seq<T>>) -> bool {
        self.push_post(input, next, out)
    }

    fn push(&mut self, input: Vec<T>) -> (out: Option<Vec<T>>) {
        StreamingConv2D::push(self, input)
    }

    fn is_finished(&self) -> (r: bool) {
        self.window.is_finished()
    }

    fn output_zero_point(&self) -> (zp: T) {
        self.output_zero_point
    }

    fn drain_hint(&self) -> (n: usize) {
        self.window.drain_hint()
    }


    fn out_count_hint(&self) -> (n: usize) {
        let (rows, cols) = self.window.out_dims();
        proof {
            self.window.lemma_out_extents();
        }
        rows * cols
    }
}
} // verus!
