//! The sliding window shared by the windowed streaming operators.
//!
//! Pixels arrive one per cycle in raster order. The window keeps the latest of them in a
//! ring buffer, answers which pixel a filter tap sees, and decides in which cycle each
//! output pixel (again in raster order) has all of its input and can be emitted.
use vstd::arithmetic::div_mod::{
    lemma_fundamental_div_mod, lemma_fundamental_div_mod_converse_div,
    lemma_fundamental_div_mod_converse_mod, lemma_mod_bound, lemma_small_mod,
};
use vstd::prelude::*;

use crate::quantize::Quantized;
use crate::tensor::TensorViewPadding;

verus! {

/// A pixel of `chans` channels that all hold `zero_point`.
pub open spec fn zero_pixel<T>(zero_point: T, chans: nat) -> Seq<T> {
    Seq::new(chans, |i: int| zero_point)
}

/// `a - b`, or 0 where that would be negative (`usize::saturating_sub`).
pub open spec fn sat_sub(a: int, b: int) -> int {
    if a >= b {
        a - b
    } else {
        0
    }
}

/// The smaller of two integers.
pub open spec fn min_int(a: int, b: int) -> int {
    if a <= b {
        a
    } else {
        b
    }
}

/// `ceil(a / b)` for `b > 0`.
pub open spec fn ceil_div(a: int, b: int) -> int {
    a / b + if a % b == 0 {
        0int
    } else {
        1int
    }
}

/// The number of outputs along one axis of a pooled or convolved input of `input` pixels,
/// for a filter of `filter` pixels moved by `stride`.
pub open spec fn out_extent(padding: TensorViewPadding, input: int, filter: int, stride: int) -> int {
    match padding {
        TensorViewPadding::Same => ceil_div(input, stride),
        TensorViewPadding::Valid => sat_sub(input, filter) / stride + 1,
    }
}

/// How far a filter window is moved back from its output position: it is centred with
/// `Same` padding and starts at the output position with `Valid` padding.
pub open spec fn window_shift(padding: TensorViewPadding, filter: int) -> int {
    match padding {
        TensorViewPadding::Same => (filter - 1) / 2,
        TensorViewPadding::Valid => 0,
    }
}

/// The streaming window of a pooling or convolution operator.
///
/// `buffer` is a ring of `buffer.len()` pixels; `write_idx` is the slot that the next
/// stored pixel goes to. `in_cycle` counts the pixels pushed, `out_cycle` the outputs
/// emitted. `pixels` is the whole input stream pushed so far.
pub struct StreamWindow<T> {
    pub input_rows: usize,
    pub input_cols: usize,
    pub input_chans: usize,
    pub filter_rows: usize,
    pub filter_cols: usize,
    pub strides: (usize, usize),
    pub view_padding: TensorViewPadding,
    pub input_zero_point: T,
    pub buffer: Vec<Vec<T>>,
    pub write_idx: usize,
    pub shift_rows: usize,
    pub shift_cols: usize,
    pub in_cycle: usize,
    pub out_cycle: usize,
    pub pixels: Ghost<Seq<Seq<T>>>,
}

impl<T: Quantized> StreamWindow<T> {
    /// Number of pixels of the input.
    pub open spec fn total_input(&self) -> int {
        self.input_rows * self.input_cols
    }

    /// Size of the ring buffer, in pixels.
    pub open spec fn buf_size(&self) -> int {
        self.buffer@.len() as int
    }

    /// Number of pixels written to the ring so far: pixels past the input are not stored.
    pub open spec fn stored_count(&self) -> int {
        if self.buf_size() > 0 {
            min_int(self.in_cycle as int, self.total_input())
        } else {
            0
        }
    }

    /// The latest input cycle that the window can look back from.
    pub open spec fn current_cycle(&self) -> int {
        min_int(sat_sub(self.in_cycle as int, 1), sat_sub(self.total_input(), 1))
    }

    /// Number of output rows.
    pub open spec fn out_rows(&self) -> int {
        out_extent(
            self.view_padding,
            self.input_rows as int,
            self.filter_rows as int,
            self.strides.0 as int,
        )
    }

    /// Number of output columns.
    pub open spec fn out_cols(&self) -> int {
        out_extent(
            self.view_padding,
            self.input_cols as int,
            self.filter_cols as int,
            self.strides.1 as int,
        )
    }

    /// Number of output pixels.
    pub open spec fn total_output(&self) -> int {
        self.out_rows() * self.out_cols()
    }

    /// The number of pushes after which output `k` (in raster order) has the last input
    /// pixel that its window needs.
    pub open spec fn required_cycles(&self, k: int) -> int {
        let out_row = k / self.out_cols();
        let out_col = k % self.out_cols();
        let req_row = out_row * self.strides.0 + sat_sub(
            sat_sub(self.filter_rows as int, 1),
            self.shift_rows as int,
        );
        let req_col = out_col * self.strides.1 + sat_sub(
            sat_sub(self.filter_cols as int, 1),
            self.shift_cols as int,
        );
        req_row * self.input_cols + req_col + 1
    }

    /// Row of the input that tap `kh` of output row `out_row` looks at.
    pub open spec fn tap_row(&self, out_row: int, kh: int) -> int {
        out_row * self.strides.0 + kh - self.shift_rows
    }

    /// Column of the input that tap `kw` of output column `out_col` looks at.
    pub open spec fn tap_col(&self, out_col: int, kw: int) -> int {
        out_col * self.strides.1 + kw - self.shift_cols
    }

    /// The position lies inside the input.
    pub open spec fn in_input(&self, r: int, c: int) -> bool {
        0 <= r < self.input_rows && 0 <= c < self.input_cols
    }

    /// The pixel that the window sees at input position `(r, c)`: the pushed pixel while the
    /// ring still holds it, nothing once it has been overwritten or before it has arrived.
    pub open spec fn sees(&self, r: int, c: int) -> Option<Seq<T>> {
        if !self.in_input(r, c) {
            None
        } else {
            let t = r * self.input_cols + c;
            let cur = self.current_cycle();
            if t > cur || cur - t >= self.buf_size() {
                None
            } else if t < self.pixels@.len() {
                Some(self.pixels@[t])
            } else {
                Some(zero_pixel(self.input_zero_point, self.input_chans as nat))
            }
        }
    }

    /// Channel `ch` of what the window sees at `(r, c)`, the input zero point where it sees
    /// nothing.
    pub open spec fn sees_value(&self, r: int, c: int, ch: int) -> T {
        match self.sees(r, c) {
            Some(p) => p[ch],
            None => self.input_zero_point,
        }
    }

    /// The sizes fit the machine: every index and cycle count computed fits `usize`.
    pub open spec fn fits(&self) -> bool {
        &&& self.total_input() <= usize::MAX
        &&& self.total_output() <= usize::MAX
        &&& (self.out_rows() * self.strides.0 + self.filter_rows) * self.input_cols
            + self.out_cols() * self.strides.1 + self.filter_cols + 1 <= usize::MAX
    }

    /// The configuration is one that the operator can run with.
    pub open spec fn config_ok(&self) -> bool {
        &&& self.input_cols > 0
        &&& self.strides.0 > 0
        &&& self.strides.1 > 0
        &&& self.view_padding == TensorViewPadding::Same ==> self.filter_rows > 0
            && self.filter_cols > 0
        &&& self.shift_rows == window_shift(self.view_padding, self.filter_rows as int)
        &&& self.shift_cols == window_shift(self.view_padding, self.filter_cols as int)
        &&& self.fits()
    }

    /// The ring buffer holds, in slot `i % buf_size`, each stored pixel `i` that is at most
    /// `buf_size` pixels old; slots not yet written hold the zero pixel.
    pub open spec fn ring_ok(&self) -> bool {
        let n = self.stored_count();
        let b = self.buf_size();
        &&& forall|j: int| 0 <= j < b ==> (#[trigger] self.buffer@[j])@.len() == self.input_chans
        &&& b > 0 ==> self.write_idx == n % b
        &&& b == 0 ==> self.write_idx == 0
        &&& forall|i: int|
            0 <= i < n && n - i <= b ==> (#[trigger] self.buffer@[i % b])@ == self.pixels@[i]
        &&& forall|j: int|
            n <= j < b ==> (#[trigger] self.buffer@[j])@ == zero_pixel(
                self.input_zero_point,
                self.input_chans as nat,
            )
    }

    /// Well-formedness of the window.
    pub open spec fn wf(&self) -> bool {
        &&& self.config_ok()
        &&& self.ring_ok()
        &&& self.pixels@.len() == self.in_cycle
        &&& forall|i: int|
            0 <= i < self.pixels@.len() ==> (#[trigger] self.pixels@[i]).len()
                == self.input_chans
        &&& self.out_cycle <= self.total_output()
    }

    /// The two windows have the same configuration.
    pub open spec fn same_config(&self, other: &Self) -> bool {
        &&& self.input_rows == other.input_rows
        &&& self.input_cols == other.input_cols
        &&& self.input_chans == other.input_chans
        &&& self.filter_rows == other.filter_rows
        &&& self.filter_cols == other.filter_cols
        &&& self.strides == other.strides
        &&& self.view_padding == other.view_padding
        &&& self.input_zero_point == other.input_zero_point
        &&& self.buffer@.len() == other.buffer@.len()
        &&& self.shift_rows == other.shift_rows
        &&& self.shift_cols == other.shift_cols
    }

    /// All outputs have been emitted.
    pub open spec fn finished(&self) -> bool {
        self.out_cycle >= self.total_output()
    }

    /// The ring size that spans a filter window: from its first tap to its last, in raster
    /// order.
    pub open spec fn ring_needed(&self) -> int {
        (self.filter_rows - 1) * self.input_cols + self.filter_cols
    }

    /// Output `k` is served promptly: the window is at the push that brings the last pixel of
    /// its window, or that pixel lies past the input (so the ring no longer moves).
    pub open spec fn prompt(&self, k: int) -> bool {
        self.in_cycle == self.required_cycles(k) || self.required_cycles(k) >= self.total_input()
    }

    /// The ring can serve output `k` now: it holds the whole input, or the filter has no taps,
    /// or it spans a filter window and `k` is served promptly.
    pub open spec fn serves(&self, k: int) -> bool {
        ||| self.buf_size() >= self.total_input()
        ||| self.filter_rows == 0
        ||| self.filter_cols == 0
        ||| (self.buf_size() >= self.ring_needed() && self.prompt(k))
    }

    /// The ring is large enough for every output of a run that serves outputs promptly: it
    /// holds the whole input, or the filter has no taps, or it spans a filter window.
    pub open spec fn ring_spans_window(&self) -> bool {
        ||| self.buf_size() >= self.total_input()
        ||| self.filter_rows == 0
        ||| self.filter_cols == 0
        ||| self.buf_size() >= self.ring_needed()
    }

    /// How many pixels past the input the window may need to emit all its outputs: enough to
    /// reach the last pixel that any output's window needs (see `schedule::lemma_drain_reaches_outputs`).
    pub open spec fn drain_extra(&self) -> nat {
        if self.total_output() == 0 {
            0
        } else {
            ((self.filter_rows + 1) * self.input_cols + self.filter_cols + 1) as nat
        }
    }

    /// After a push that brought the input to `self`, output `out_cycle` is due.
    pub open spec fn due(&self, out_cycle: int) -> bool {
        out_cycle < self.total_output() && self.in_cycle >= self.required_cycles(out_cycle)
    }

    /// Creates an empty window whose ring holds `buf_size` pixels.
    pub fn new(
        input_rows: usize,
        input_cols: usize,
        input_chans: usize,
        filter_rows: usize,
        filter_cols: usize,
        buf_size: usize,
        input_zero_point: T,
        view_padding: TensorViewPadding,
        strides: (usize, usize),
    ) -> (w: Self)
        requires
            input_cols > 0,
            strides.0 > 0,
            strides.1 > 0,
            view_padding == TensorViewPadding::Same ==> filter_rows > 0 && filter_cols > 0,
            ({
                let out_rows = out_extent(view_padding, input_rows as int, filter_rows as int, strides.0 as int);
                let out_cols = out_extent(view_padding, input_cols as int, filter_cols as int, strides.1 as int);
                &&& input_rows * input_cols <= usize::MAX
                &&& out_rows * out_cols <= usize::MAX
                &&& (out_rows * strides.0 + filter_rows) * input_cols + out_cols * strides.1
                    + filter_cols + 1 <= usize::MAX
            }),
        ensures
            w.wf(),
            w.input_rows == input_rows,
            w.input_cols == input_cols,
            w.input_chans == input_chans,
            w.filter_rows == filter_rows,
            w.filter_cols == filter_cols,
            w.buffer@.len() == buf_size,
            w.input_zero_point == input_zero_point,
            w.view_padding == view_padding,
            w.strides == strides,
            w.in_cycle == 0,
            w.out_cycle == 0,
            w.pixels@ == Seq::<Seq<T>>::empty(),
    {
        let (shift_rows, shift_cols) = match view_padding {
            TensorViewPadding::Same => ((filter_rows - 1) / 2, (filter_cols - 1) / 2),
            TensorViewPadding::Valid => (0, 0),
        };
        let mut buffer: Vec<Vec<T>> = Vec::new();
        let mut j: usize = 0;
        while j < buf_size
            invariant
                j <= buf_size,
                buffer@.len() == j,
                forall|k: int|
                    0 <= k < j ==> (#[trigger] buffer@[k])@ == zero_pixel(
                        input_zero_point,
                        input_chans as nat,
                    ),
            decreases buf_size - j,
        {
            buffer.push(filled_pixel(input_zero_point, input_chans));
            j = j + 1;
        }
        let w = StreamWindow {
            input_rows,
            input_cols,
            input_chans,
            filter_rows,
            filter_cols,
            strides,
            view_padding,
            input_zero_point,
            buffer,
            write_idx: 0,
            shift_rows,
            shift_cols,
            in_cycle: 0,
            out_cycle: 0,
            pixels: Ghost(Seq::empty()),
        };
        proof {
            if buf_size > 0 {
                lemma_small_mod(0, buf_size as nat);
            }
            lemma_nonneg_product(w.out_rows(), w.out_cols());
        }
        w
    }

    /// The output dimensions `(rows, cols)`.
    pub fn out_dims(&self) -> (dims: (usize, usize))
        requires
            self.config_ok(),
        ensures
            dims.0 == self.out_rows(),
            dims.1 == self.out_cols(),
    {
        proof {
            self.lemma_out_extents();
        }
        let out_rows = extent(
            self.view_padding,
            self.input_rows,
            self.filter_rows,
            self.strides.0,
        );
        let out_cols = extent(
            self.view_padding,
            self.input_cols,
            self.filter_cols,
            self.strides.1,
        );
        (out_rows, out_cols)
    }

    /// All outputs have been emitted.
    pub fn is_finished(&self) -> (r: bool)
        requires
            self.config_ok(),
        ensures
            r == self.finished(),
    {
        let (out_rows, out_cols) = self.out_dims();
        self.out_cycle >= out_rows * out_cols
    }

    /// How many pixels past the input the window may need to emit all its outputs.
    pub fn drain_hint(&self) -> (n: usize)
        requires
            self.config_ok(),
        ensures
            n == self.drain_extra(),
    {
        let (out_rows, out_cols) = self.out_dims();
        if out_rows == 0 || out_cols == 0 {
            proof {
                assert(self.total_output() == 0) by (nonlinear_arith)
                    requires self.out_rows() == 0 || self.out_cols() == 0, self.total_output() == self.out_rows() * self.out_cols();
            }
            return 0;
        }
        proof {
            self.lemma_out_extents();
            let ors = self.out_rows();
            let ocs = self.out_cols();
            let s0 = self.strides.0 as int;
            let s1 = self.strides.1 as int;
            let fr = self.filter_rows as int;
            let c = self.input_cols as int;
            assert(ors * ocs >= 1) by (nonlinear_arith)
                requires ors >= 1, ocs >= 1;
            assert((fr + 1) * c <= (ors * s0 + fr) * c) by (nonlinear_arith)
                requires ors >= 1, s0 >= 1, c >= 1, fr >= 0;
            assert(ocs * s1 >= 0) by (nonlinear_arith)
                requires ocs >= 1, s1 >= 1;
            assert((ors * s0 + fr) * c + ocs * s1 + self.filter_cols + 1 <= usize::MAX);
            assert(fr + 1 <= (fr + 1) * c) by (nonlinear_arith)
                requires c >= 1, fr >= 0;
            assert((fr + 1) * c + self.filter_cols + 1 <= usize::MAX);
        }
        (self.filter_rows + 1) * self.input_cols + self.filter_cols + 1
    }

    /// Finds the ring slot that holds what the window sees at `(r, c)`: none for a position
    /// outside the input, one not yet pushed, or one the ring no longer holds.
    pub fn sample(&self, r: usize, c: usize) -> (slot: Option<usize>)
        requires
            self.wf(),
        ensures
            match slot {
                Some(j) => j < self.buffer@.len() && self.sees(r as int, c as int) == Some(
                    self.buffer@[j as int]@,
                ),
                None => self.sees(r as int, c as int) is None,
            },
    {
        if r >= self.input_rows || c >= self.input_cols {
            return None;
        }
        proof {
            lemma_raster_index(r as int, c as int, self.input_rows as int, self.input_cols as int);
        }
        let total = self.input_rows * self.input_cols;
        let target = r * self.input_cols + c;
        let last_input = if total > 0 {
            total - 1
        } else {
            0
        };
        let last_pushed = if self.in_cycle > 0 {
            self.in_cycle - 1
        } else {
            0
        };
        let current = if last_pushed <= last_input {
            last_pushed
        } else {
            last_input
        };
        if target > current {
            return None;
        }
        let age = current - target;
        let buf = self.buffer.len();
        if age < buf {
            let back = age + 1;
            let slot = if self.write_idx >= back {
                self.write_idx - back
            } else {
                buf - (back - self.write_idx)
            };
            proof {
                let n = self.stored_count();
                if self.in_cycle > 0 {
                    lemma_ring_slot(n, back as int, buf as int);
                    assert(target == n - back);
                } else {
                    assert(self.write_idx == 0) by {
                        lemma_small_mod(0, buf as nat);
                    }
                }
            }
            Some(slot)
        } else {
            None
        }
    }

    /// The pixel that the window sees at `(r, c)`, for any position: none outside the input,
    /// before the pixel has arrived, or after the ring has overwritten it.
    pub fn sees_pixel(&self, r: isize, c: isize) -> (p: Option<Vec<T>>)
        requires
            self.wf(),
        ensures
            match p {
                Some(v) => self.sees(r as int, c as int) == Some(v@),
                None => self.sees(r as int, c as int) is None,
            },
    {
        if r < 0 || c < 0 {
            return None;
        }
        match self.sample(r as usize, c as usize) {
            Some(j) => Some(copy_pixel(&self.buffer[j])),
            None => None,
        }
    }

    /// Takes the next input pixel: stores it in the ring while it belongs to the input, and
    /// returns the position of the output that becomes due, if one does.
    pub fn advance(&mut self, pixel: &Vec<T>) -> (due: Option<(usize, usize)>)
        requires
            old(self).wf(),
            pixel@.len() == old(self).input_chans,
            old(self).in_cycle < usize::MAX,
        ensures
            final(self).wf(),
            final(self).same_config(&*old(self)),
            final(self).pixels@ == old(self).pixels@.push(pixel@),
            final(self).in_cycle == old(self).in_cycle + 1,
            match due {
                Some(pos) => {
                    &&& final(self).due(old(self).out_cycle as int)
                    &&& pos.0 == (old(self).out_cycle as int) / old(self).out_cols()
                    &&& pos.1 == (old(self).out_cycle as int) % old(self).out_cols()
                    &&& final(self).out_cycle == old(self).out_cycle + 1
                },
                None => {
                    &&& !final(self).due(old(self).out_cycle as int)
                    &&& final(self).out_cycle == old(self).out_cycle
                },
            },
    {
        let ghost old_w = *self;
        let buf = self.buffer.len();
        let total = self.input_rows * self.input_cols;
        if self.in_cycle < total && buf > 0 {
            let w = self.write_idx;
            self.buffer[w] = copy_pixel(pixel);
            self.write_idx = (w + 1) % buf;
            proof {
                let n = old_w.stored_count();
                lemma_ring_write(n, buf as int);
            }
        }
        self.in_cycle = self.in_cycle + 1;
        self.pixels = Ghost(self.pixels@.push(pixel@));
        proof {
            let n = old_w.stored_count();
            let b = buf as int;
            if old_w.in_cycle < total && b > 0 {
                assert(self.stored_count() == n + 1);
                assert forall|i: int|
                    0 <= i < n + 1 && n + 1 - i <= b implies (#[trigger] self.buffer@[i
                    % b])@ == self.pixels@[i] by {
                    if i < n {
                        lemma_ring_distinct(i, n, b);
                        assert(old_w.buffer@[i % b]@ == old_w.pixels@[i]);
                    } else {
                        lemma_small_mod_or_wrap(n, b);
                    }
                }
                assert forall|j: int|
                    n + 1 <= j < b implies (#[trigger] self.buffer@[j])@ == zero_pixel(
                        self.input_zero_point,
                        self.input_chans as nat,
                    ) by {
                    lemma_small_mod(n as nat, b as nat);
                }
            } else {
                assert(self.stored_count() == n);
            }
        }
        let (out_rows, out_cols) = self.out_dims();
        if self.out_cycle >= out_rows * out_cols {
            return None;
        }
        proof {
            self.lemma_required_cycles_fit(self.out_cycle as int);
        }
        let out_row = self.out_cycle / out_cols;
        let out_col = self.out_cycle % out_cols;
        let req_in_row = out_row * self.strides.0 + self.filter_rows.saturating_sub(1).saturating_sub(
            self.shift_rows,
        );
        let req_in_col = out_col * self.strides.1 + self.filter_cols.saturating_sub(1).saturating_sub(
            self.shift_cols,
        );
        let req_cycles = req_in_row * self.input_cols + req_in_col + 1;
        if self.in_cycle >= req_cycles {
            self.out_cycle = self.out_cycle + 1;
            Some((out_row, out_col))
        } else {
            None
        }
    }

    /// The input positions that the taps of output `(out_row, out_col)` reach fit `usize`.
    pub proof fn lemma_taps_fit(&self, out_row: int, out_col: int)
        requires
            self.config_ok(),
            0 <= out_row < self.out_rows(),
            0 <= out_col < self.out_cols(),
        ensures
            out_row * self.strides.0 + self.filter_rows <= usize::MAX,
            out_col * self.strides.1 + self.filter_cols <= usize::MAX,
    {
        self.lemma_out_extents();
        let s0 = self.strides.0 as int;
        let s1 = self.strides.1 as int;
        let orows = self.out_rows();
        let oc = self.out_cols();
        let c = self.input_cols as int;
        let fr = self.filter_rows as int;
        assert(out_row * s0 <= orows * s0) by (nonlinear_arith)
            requires 0 <= out_row < orows, s0 >= 1;
        assert(out_col * s1 <= oc * s1) by (nonlinear_arith)
            requires 0 <= out_col < oc, s1 >= 1;
        assert((orows * s0 + fr) <= (orows * s0 + fr) * c) by (nonlinear_arith)
            requires 0 <= orows * s0 + fr, c >= 1;
    }

    /// The output extents are at least 1 when the input has pixels, and never negative.
    pub proof fn lemma_out_extents(&self)
        requires
            self.config_ok(),
        ensures
            self.out_rows() >= 0,
            self.out_cols() >= 1,
            self.out_rows() <= usize::MAX,
            self.out_cols() <= usize::MAX,
    {
        lemma_extent_nonneg(self.view_padding, self.input_rows as int, self.filter_rows as int, self.strides.0 as int);
        lemma_extent_nonneg(self.view_padding, self.input_cols as int, self.filter_cols as int, self.strides.1 as int);
        lemma_nonneg_product(self.out_rows(), self.out_cols());
        let a = self.out_rows() * self.strides.0 + self.filter_rows;
        assert(self.out_rows() <= self.out_rows() * self.strides.0) by (nonlinear_arith)
            requires self.out_rows() >= 0, self.strides.0 >= 1;
        assert(a <= a * self.input_cols) by (nonlinear_arith)
            requires a >= 0, self.input_cols >= 1;
        let b = self.out_cols();
        assert(b <= b * self.strides.1) by (nonlinear_arith)
            requires b >= 0, self.strides.1 >= 1;
    }

    /// When the ring serves an output that is due (or the whole input has arrived), every tap
    /// of it that lies inside the input sees exactly the input pixel at its position: the
    /// window never reads a pixel before it has arrived, nor after it has been overwritten.
    pub proof fn lemma_due_taps_see_input(&self, k: int, kh: int, kw: int)
        requires
            self.wf(),
            0 <= k < self.total_output(),
            self.due(k) || self.in_cycle >= self.total_input(),
            self.serves(k),
            0 <= kh < self.filter_rows,
            0 <= kw < self.filter_cols,
            self.in_input(
                self.tap_row(k / self.out_cols(), kh),
                self.tap_col(k % self.out_cols(), kw),
            ),
        ensures
            ({
                let r = self.tap_row(k / self.out_cols(), kh);
                let c = self.tap_col(k % self.out_cols(), kw);
                &&& self.sees(r, c) == Some(self.pixels@[r * self.input_cols + c])
                &&& 0 <= r * self.input_cols + c < self.in_cycle
                &&& r * self.input_cols + c < self.total_input()
            }),
    {
        self.lemma_required_cycles_fit(k);
        let oc = self.out_cols();
        let orow = k / oc;
        let ocol = k % oc;
        let r = self.tap_row(orow, kh);
        let c = self.tap_col(ocol, kw);
        let cols = self.input_cols as int;
        let req_row = orow * self.strides.0 + sat_sub(sat_sub(self.filter_rows as int, 1), self.shift_rows as int);
        let req_col = ocol * self.strides.1 + sat_sub(sat_sub(self.filter_cols as int, 1), self.shift_cols as int);
        assert(self.shift_rows <= self.filter_rows - 1 && self.shift_cols <= self.filter_cols - 1) by {
            if self.view_padding == TensorViewPadding::Same {
                assert((self.filter_rows - 1) / 2 <= self.filter_rows - 1);
                assert((self.filter_cols - 1) / 2 <= self.filter_cols - 1);
            }
        }
        assert(r <= req_row);
        assert(c <= req_col);
        let t = r * cols + c;
        if r < req_row {
            assert(r * cols + cols <= req_row * cols) by (nonlinear_arith)
                requires 0 <= r, r + 1 <= req_row, cols > 0;
        }
        assert(t <= req_row * cols + req_col);
        lemma_raster_index(r, c, self.input_rows as int, cols);
        if self.buf_size() < self.total_input() {
            // The ring spans the window, and the output is served before the ring moves on:
            // the oldest tap is at most the window's span behind the newest pixel.
            let fr = self.filter_rows as int;
            let fc = self.filter_cols as int;
            assert(self.current_cycle() <= req_row * cols + req_col);
            assert(req_row - r <= fr - 1);
            assert(req_row * cols - r * cols <= (fr - 1) * cols) by (nonlinear_arith)
                requires req_row - r <= fr - 1, r <= req_row, cols > 0;
            assert(req_col - c <= fc - 1);
            assert(self.current_cycle() - t < self.ring_needed());
        }
    }

    /// The cycle count that output `k` needs, and the taps of its window, fit `usize`.
    pub proof fn lemma_required_cycles_fit(&self, k: int)
        requires
            self.config_ok(),
            0 <= k < self.total_output(),
        ensures
            0 <= k / self.out_cols() < self.out_rows(),
            0 <= k % self.out_cols() < self.out_cols(),
            self.required_cycles(k) <= usize::MAX,
            (k / self.out_cols()) * self.strides.0 + self.filter_rows <= usize::MAX,
            (k % self.out_cols()) * self.strides.1 + self.filter_cols <= usize::MAX,
    {
        self.lemma_out_extents();
        let oc = self.out_cols();
        let orows = self.out_rows();
        lemma_fundamental_div_mod(k, oc);
        lemma_mod_bound(k, oc);
        let q = k / oc;
        let r = k % oc;
        assert(0 <= q < orows) by (nonlinear_arith)
            requires k == oc * q + r, 0 <= r < oc, 0 <= k < orows * oc, oc >= 1;
        let s0 = self.strides.0 as int;
        let s1 = self.strides.1 as int;
        let c = self.input_cols as int;
        let fr = self.filter_rows as int;
        let fc = self.filter_cols as int;
        let req_row = q * s0 + sat_sub(sat_sub(fr, 1), self.shift_rows as int);
        let req_col = r * s1 + sat_sub(sat_sub(fc, 1), self.shift_cols as int);
        assert(q * s0 <= orows * s0) by (nonlinear_arith)
            requires 0 <= q < orows, s0 >= 1;
        assert(r * s1 <= oc * s1) by (nonlinear_arith)
            requires 0 <= r < oc, s1 >= 1;
        assert(req_row * c <= (orows * s0 + fr) * c) by (nonlinear_arith)
            requires 0 <= req_row <= orows * s0 + fr, c >= 1;
        assert((q * s0 + fr) <= (orows * s0 + fr) * c) by (nonlinear_arith)
            requires 0 <= q * s0 + fr <= orows * s0 + fr, c >= 1;
    }
}

/// The extent along one axis, computed without overflow.
fn extent(padding: TensorViewPadding, input: usize, filter: usize, stride: usize) -> (e: usize)
    requires
        stride > 0,
        out_extent(padding, input as int, filter as int, stride as int) <= usize::MAX,
    ensures
        e == out_extent(padding, input as int, filter as int, stride as int),
{
    match padding {
        TensorViewPadding::Same => {
            if input % stride == 0 {
                input / stride
            } else {
                input / stride + 1
            }
        },
        TensorViewPadding::Valid => input.saturating_sub(filter) / stride + 1,
    }
}

pub proof fn lemma_extent_nonneg(padding: TensorViewPadding, input: int, filter: int, stride: int)
    requires
        input >= 0,
        filter >= 0,
        stride > 0,
    ensures
        out_extent(padding, input, filter, stride) >= 0,
        padding == TensorViewPadding::Valid ==> out_extent(padding, input, filter, stride) >= 1,
        input > 0 ==> out_extent(padding, input, filter, stride) >= 1,
{
    lemma_mod_bound(input, stride);
    lemma_fundamental_div_mod(input, stride);
    assert(input / stride >= 0) by (nonlinear_arith)
        requires input >= 0, stride > 0, input == stride * (input / stride) + input % stride,
            0 <= input % stride < stride;
    assert(input > 0 ==> input / stride >= 1 || input % stride != 0) by (nonlinear_arith)
        requires input == stride * (input / stride) + input % stride, input / stride >= 0;
    let d = sat_sub(input, filter);
    lemma_fundamental_div_mod(d, stride);
    lemma_mod_bound(d, stride);
    assert(d / stride >= 0) by (nonlinear_arith)
        requires d >= 0, stride > 0, d == stride * (d / stride) + d % stride,
            0 <= d % stride < stride;
}

proof fn lemma_nonneg_product(a: int, b: int)
    ensures
        a >= 0 && b >= 0 ==> a * b >= 0,
{
    assert(a >= 0 && b >= 0 ==> a * b >= 0) by (nonlinear_arith);
}

/// A raster index lies below the number of pixels.
pub proof fn lemma_raster_index(r: int, c: int, rows: int, cols: int)
    requires
        0 <= r < rows,
        0 <= c < cols,
    ensures
        0 <= r * cols + c < rows * cols,
{
    assert(0 <= r * cols + c < rows * cols) by (nonlinear_arith)
        requires 0 <= r < rows, 0 <= c < cols;
}

/// Stepping back `back` slots from the slot after pixel `n - 1` lands on the slot of pixel
/// `n - back`.
proof fn lemma_ring_slot(n: int, back: int, b: int)
    requires
        b > 0,
        1 <= back <= b,
        back <= n,
    ensures
        (if n % b >= back {
            n % b - back
        } else {
            n % b + b - back
        }) == (n - back) % b,
{
    lemma_fundamental_div_mod(n, b);
    lemma_mod_bound(n, b);
    let q = n / b;
    let r = n % b;
    if r >= back {
        assert(n - back == q * b + (r - back)) by (nonlinear_arith)
            requires n == b * q + r;
        lemma_fundamental_div_mod_converse_mod(n - back, b, q, r - back);
    } else {
        assert(n - back == (q - 1) * b + (r + b - back)) by (nonlinear_arith)
            requires n == b * q + r;
        lemma_fundamental_div_mod_converse_mod(n - back, b, q - 1, r + b - back);
    }
}

/// After writing slot `n % b`, the next slot is `(n + 1) % b`.
proof fn lemma_ring_write(n: int, b: int)
    requires
        b > 0,
        n >= 0,
    ensures
        (n % b + 1) % b == (n + 1) % b,
        0 <= n % b < b,
{
    lemma_fundamental_div_mod(n, b);
    lemma_mod_bound(n, b);
    let q = n / b;
    let r = n % b;
    if r + 1 < b {
        lemma_small_mod((r + 1) as nat, b as nat);
        assert(n + 1 == q * b + (r + 1)) by (nonlinear_arith)
            requires n == b * q + r;
        lemma_fundamental_div_mod_converse_mod(n + 1, b, q, r + 1);
    } else {
        assert((r + 1) % b == 0) by {
            lemma_fundamental_div_mod_converse_mod(r + 1, b, 1, 0);
        }
        assert(n + 1 == (q + 1) * b + 0) by (nonlinear_arith)
            requires n == b * q + r, r + 1 == b;
        lemma_fundamental_div_mod_converse_mod(n + 1, b, q + 1, 0);
    }
}

/// Pixels less than `b` apart sit in different slots.
proof fn lemma_ring_distinct(i: int, n: int, b: int)
    requires
        b > 0,
        0 <= i < n,
        n - i < b,
    ensures
        i % b != n % b,
{
    lemma_fundamental_div_mod(i, b);
    lemma_fundamental_div_mod(n, b);
    lemma_mod_bound(i, b);
    lemma_mod_bound(n, b);
    if i % b == n % b {
        let d = n / b - i / b;
        assert(n - i == b * d) by (nonlinear_arith)
            requires n == b * (n / b) + n % b, i == b * (i / b) + i % b, i % b == n % b,
                d == n / b - i / b;
        assert(false) by (nonlinear_arith)
            requires n - i == b * d, 0 < n - i < b;
    }
}

/// The slot of pixel `n` is `n % b`, which lies inside the ring.
proof fn lemma_small_mod_or_wrap(n: int, b: int)
    requires
        b > 0,
        n >= 0,
    ensures
        0 <= n % b < b,
{
    lemma_mod_bound(n, b);
}

/// A vector of `n` copies of `value`.
pub fn filled_pixel<T: Quantized>(value: T, n: usize) -> (p: Vec<T>)
    ensures
        p@ == zero_pixel(value, n as nat),
{
    let mut p: Vec<T> = Vec::new();
    let mut i: usize = 0;
    while i < n
        invariant
            i <= n,
            p@ == zero_pixel(value, i as nat),
        decreases n - i,
    {
        p.push(value);
        i = i + 1;
        proof {
            assert(p@ =~= zero_pixel(value, i as nat));
        }
    }
    p
}

/// A copy of a pixel.
pub fn copy_pixel<T: Quantized>(pixel: &Vec<T>) -> (p: Vec<T>)
    ensures
        p@ == pixel@,
{
    let mut p: Vec<T> = Vec::new();
    let mut i: usize = 0;
    while i < pixel.len()
        invariant
            i <= pixel@.len(),
            p@ == pixel@.take(i as int),
        decreases pixel@.len() - i,
    {
        p.push(pixel[i]);
        i = i + 1;
        proof {
            assert(p@ =~= pixel@.take(i as int));
        }
    }
    proof {
        assert(pixel@.take(pixel@.len() as int) =~= pixel@);
    }
    p
}

/// The configurations that a window can be created with: columns in the input, positive
/// strides, a filter with taps under `Same` padding, and sizes whose cycle counts fit `usize`.
pub open spec fn spec_window_config_ok(
    input_rows: usize,
    input_cols: usize,
    filter_rows: usize,
    filter_cols: usize,
    strides: (usize, usize),
    view_padding: TensorViewPadding,
) -> bool {
    &&& input_cols > 0
    &&& strides.0 > 0
    &&& strides.1 > 0
    &&& view_padding == TensorViewPadding::Same ==> filter_rows > 0 && filter_cols > 0
    &&& ({
        let out_rows = out_extent(view_padding, input_rows as int, filter_rows as int, strides.0 as int);
        let out_cols = out_extent(view_padding, input_cols as int, filter_cols as int, strides.1 as int);
        &&& input_rows * input_cols <= usize::MAX
        &&& out_rows * out_cols <= usize::MAX
        &&& (out_rows * strides.0 + filter_rows) * input_cols + out_cols * strides.1
            + filter_cols + 1 <= usize::MAX
    })
}

/// The extent along one axis, if it fits `usize`.
fn checked_extent(padding: TensorViewPadding, input: usize, filter: usize, stride: usize) -> (e: Option<usize>)
    requires
        stride > 0,
    ensures
        match e {
            Some(v) => v == out_extent(padding, input as int, filter as int, stride as int),
            None => out_extent(padding, input as int, filter as int, stride as int) > usize::MAX,
        },
{
    match padding {
        TensorViewPadding::Same => {
            if input % stride == 0 {
                Some(input / stride)
            } else {
                proof {
                    let q = input as int / stride as int;
                    let r = input as int % stride as int;
                    lemma_fundamental_div_mod(input as int, stride as int);
                    lemma_mod_bound(input as int, stride as int);
                    assert(q < usize::MAX) by (nonlinear_arith)
                        requires input == stride * q + r, 0 < r < stride, q >= 0, input <= usize::MAX;
                }
                Some(input / stride + 1)
            }
        },
        TensorViewPadding::Valid => (input.saturating_sub(filter) / stride).checked_add(1),
    }
}

/// Tells whether a window (and so a windowed operator) can be created with this
/// configuration.
pub fn window_config_ok(
    input_rows: usize,
    input_cols: usize,
    filter_rows: usize,
    filter_cols: usize,
    strides: (usize, usize),
    view_padding: TensorViewPadding,
) -> (ok: bool)
    ensures
        ok == spec_window_config_ok(input_rows, input_cols, filter_rows, filter_cols, strides, view_padding),
{
    if input_cols == 0 || strides.0 == 0 || strides.1 == 0 {
        return false;
    }
    if view_padding == TensorViewPadding::Same && (filter_rows == 0 || filter_cols == 0) {
        return false;
    }
    let ghost ors = out_extent(view_padding, input_rows as int, filter_rows as int, strides.0 as int);
    let ghost ocs = out_extent(view_padding, input_cols as int, filter_cols as int, strides.1 as int);
    proof {
        lemma_extent_nonneg(view_padding, input_rows as int, filter_rows as int, strides.0 as int);
        lemma_extent_nonneg(view_padding, input_cols as int, filter_cols as int, strides.1 as int);
    }
    if input_rows.checked_mul(input_cols).is_none() {
        return false;
    }
    let out_rows = match checked_extent(view_padding, input_rows, filter_rows, strides.0) {
        Some(v) => v,
        None => {
            proof {
                assert(ors * strides.0 >= ors) by (nonlinear_arith)
                    requires ors >= 0, strides.0 >= 1;
                assert((ors * strides.0 + filter_rows) * input_cols >= ors * strides.0 + filter_rows) by (nonlinear_arith)
                    requires ors * strides.0 + filter_rows >= 0, input_cols >= 1;
                assert(ocs * strides.1 >= 0) by (nonlinear_arith)
                    requires ocs >= 0, strides.1 >= 1;
            }
            return false;
        },
    };
    let out_cols = match checked_extent(view_padding, input_cols, filter_cols, strides.1) {
        Some(v) => v,
        None => {
            proof {
                assert(ocs * strides.1 >= ocs) by (nonlinear_arith)
                    requires ocs >= 0, strides.1 >= 1;
                assert((ors * strides.0 + filter_rows) * input_cols >= 0) by (nonlinear_arith)
                    requires ors >= 0, strides.0 >= 1, input_cols >= 1;
            }
            return false;
        },
    };
    if out_rows.checked_mul(out_cols).is_none() {
        return false;
    }
    // (out_rows * s0 + filter_rows) * input_cols + out_cols * s1 + filter_cols + 1
    let a = match out_rows.checked_mul(strides.0) {
        Some(v) => v,
        None => {
            proof {
                assert((ors * strides.0 + filter_rows) * input_cols >= ors * strides.0) by (nonlinear_arith)
                    requires ors * strides.0 >= 0, filter_rows >= 0, input_cols >= 1;
                assert(ocs * strides.1 >= 0) by (nonlinear_arith)
                    requires ocs >= 0, strides.1 >= 1;
            }
            return false;
        },
    };
    let b = match a.checked_add(filter_rows) {
        Some(v) => v,
        None => {
            proof {
                assert((ors * strides.0 + filter_rows) * input_cols >= ors * strides.0 + filter_rows) by (nonlinear_arith)
                    requires ors * strides.0 + filter_rows >= 0, input_cols >= 1;
                assert(ocs * strides.1 >= 0) by (nonlinear_arith)
                    requires ocs >= 0, strides.1 >= 1;
            }
            return false;
        },
    };
    let c = match b.checked_mul(input_cols) {
        Some(v) => v,
        None => {
            proof {
                assert(ocs * strides.1 >= 0) by (nonlinear_arith)
                    requires ocs >= 0, strides.1 >= 1;
            }
            return false;
        },
    };
    let d = match out_cols.checked_mul(strides.1) {
        Some(v) => v,
        None => {
            proof {
                assert(c >= 0);
            }
            return false;
        },
    };
    let e = match c.checked_add(d) {
        Some(v) => v,
        None => return false,
    };
    let f = match e.checked_add(filter_cols) {
        Some(v) => v,
        None => return false,
    };
    f.checked_add(1).is_some()
}

/// Rounding up a quotient by a positive divisor gives at most the dividend.
pub proof fn lemma_ceil_div_within(a: int, b: int)
    requires
        a >= 0,
        b >= 1,
    ensures
        0 <= ceil_div(a, b) <= a,
{
    assert(a / b >= 0 && a / b * b <= a) by (nonlinear_arith)
        requires a >= 0, b >= 1;
    if a % b != 0 {
        assert(a / b * b + a % b == a) by (nonlinear_arith)
            requires a >= 0, b >= 1;
        assert(a / b + 1 <= a) by (nonlinear_arith)
            requires a / b * b + a % b == a, a % b >= 1, b >= 1, a / b >= 0;
    }
}

} // verus!
