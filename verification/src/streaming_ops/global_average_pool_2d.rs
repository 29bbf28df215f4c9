//! Streaming GlobalAveragePool2D: the channel-wise average over the whole input.
use vstd::prelude::*;

use crate::activation::{activate, spec_activate, FusedActivation};
use crate::quantize::Quantized;
use crate::streaming_ops::stream_op::{opt_view, StreamOp};

verus! {

/// The sum of channel `ch` over the first `n` pixels.
pub open spec fn channel_sum<T: Quantized>(pixels: Seq<Seq<T>>, ch: int, n: nat) -> int
    decreases n,
{
    if n == 0 {
        0
    } else {
        channel_sum(pixels, ch, (n - 1) as nat) + pixels[n - 1][ch].value()
    }
}

/// A channel sum over `n` pixels lies within `n` times the element type's magnitude.
pub proof fn lemma_channel_sum_bounds<T: Quantized>(pixels: Seq<Seq<T>>, ch: int, n: nat)
    ensures
        -(n * T::magnitude()) <= channel_sum(pixels, ch, n) <= n * T::magnitude(),
    decreases n,
{
    if n > 0 {
        lemma_channel_sum_bounds(pixels, ch, (n - 1) as nat);
        T::lemma_value_magnitude(pixels[n - 1][ch]);
        assert((n - 1) * T::magnitude() + T::magnitude() == n * T::magnitude()) by (nonlinear_arith);
    }
}

/// A GlobalAveragePool2D operator that takes its input one pixel at a time.
///
/// `requantize` maps the sum of a channel over the input and the number of pixels to the
/// quantized output value; the fused activation is applied after it.
pub struct StreamingGlobalAveragePool2D<T, Q> {
    pub input_rows: usize,
    pub input_cols: usize,
    pub input_chans: usize,
    pub input_zero_point: T,
    pub output_zero_point: T,
    /// 6.0 quantized with the output's scale and zero point: the ceiling of ReLU6.
    pub output_relu6_limit: T,
    pub fused_activation: FusedActivation,
    pub requantize: Q,
    /// The running sum of each channel.
    pub sums: Vec<i32>,
    pub in_cycle: usize,
    pub out_cycle: usize,
    /// The pixels pushed so far.
    pub pixels: Ghost<Seq<Seq<T>>>,
}

impl<T: Quantized, Q: Fn(i32, usize) -> T> StreamingGlobalAveragePool2D<T, Q> {
    /// Number of pixels of the input.
    pub open spec fn area(&self) -> int {
        self.input_rows * self.input_cols
    }

    /// Number of pixels summed so far: those past the input are not.
    pub open spec fn summed_count(&self) -> nat {
        if self.in_cycle < self.area() {
            self.in_cycle as nat
        } else {
            self.area() as nat
        }
    }

    /// Well-formedness: each running sum is the sum of its channel over the pixels of the
    /// input pushed so far, and the whole input's sums fit `i32` for the element type's range.
    pub open spec fn wf(&self) -> bool {
        &&& self.area() * T::magnitude() <= i32::MAX
        &&& self.sums@.len() == self.input_chans
        &&& self.pixels@.len() == self.in_cycle
        &&& forall|i: int|
            0 <= i < self.pixels@.len() ==> (#[trigger] self.pixels@[i]).len() == self.input_chans
        &&& forall|ch: int|
            0 <= ch < self.input_chans ==> #[trigger] self.sums@[ch] == channel_sum(
                self.pixels@,
                ch,
                self.summed_count(),
            )
        &&& self.out_cycle <= 1
        &&& self.out_cycle == 1 ==> self.in_cycle >= self.area()
        &&& forall|sum: i32, count: usize| #[trigger] call_requires(self.requantize, (sum, count))
    }

    /// `y` is channel `ch` of the output: the activated requantization of the channel's sum
    /// over the whole input and the number of pixels.
    pub open spec fn is_output_value(&self, ch: int, y: T) -> bool {
        exists|r: T|
            #[trigger] call_ensures(
                self.requantize,
                (channel_sum(self.pixels@, ch, self.area() as nat) as i32, self.area() as usize),
                r,
            ) && y == spec_activate(
                self.fused_activation,
                r,
                self.output_zero_point,
                self.output_relu6_limit,
            )
    }

    /// `y` is the output pixel.
    pub open spec fn is_output(&self, y: Seq<T>) -> bool {
        &&& y.len() == self.input_chans
        &&& forall|ch: int| 0 <= ch < y.len() ==> self.is_output_value(ch, #[trigger] y[ch])
    }

    /// All outputs have been emitted.
    pub open spec fn finished(&self) -> bool {
        self.out_cycle >= 1
    }

    /// Creates the operator with all sums at zero.
    pub fn new(
        input_rows: usize,
        input_cols: usize,
        input_chans: usize,
        input_zero_point: T,
        output_zero_point: T,
        output_relu6_limit: T,
        fused_activation: FusedActivation,
        requantize: Q,
    ) -> (op: Self)
        requires
            input_rows * input_cols * T::magnitude() <= i32::MAX,
            forall|sum: i32, count: usize| #[trigger] call_requires(requantize, (sum, count)),
        ensures
            op.wf(),
            op.input_rows == input_rows,
            op.input_cols == input_cols,
            op.input_chans == input_chans,
            op.input_zero_point == input_zero_point,
            op.output_zero_point == output_zero_point,
            op.output_relu6_limit == output_relu6_limit,
            op.fused_activation == fused_activation,
            op.requantize == requantize,
            op.in_cycle == 0,
            op.out_cycle == 0,
            op.pixels@ == Seq::<Seq<T>>::empty(),
    {
        let mut sums: Vec<i32> = Vec::new();
        let mut ch: usize = 0;
        while ch < input_chans
            invariant
                ch <= input_chans,
                sums@.len() == ch,
                forall|k: int| 0 <= k < ch ==> #[trigger] sums@[k] == 0,
            decreases input_chans - ch,
        {
            sums.push(0);
            ch = ch + 1;
        }
        StreamingGlobalAveragePool2D {
            input_rows,
            input_cols,
            input_chans,
            input_zero_point,
            output_zero_point,
            output_relu6_limit,
            fused_activation,
            requantize,
            sums,
            in_cycle: 0,
            out_cycle: 0,
            pixels: Ghost(Seq::empty()),
        }
    }

    /// Computes the output from the sums.
    fn compute(&self) -> (y: Vec<T>)
        requires
            self.wf(),
            self.in_cycle >= self.area(),
        ensures
            self.is_output(y@),
    {
        let area = self.input_rows * self.input_cols;
        let mut y: Vec<T> = Vec::new();
        let mut ch: usize = 0;
        while ch < self.input_chans
            invariant
                self.wf(),
                self.in_cycle >= self.area(),
                area == self.area(),
                ch <= self.input_chans,
                y@.len() == ch,
                forall|k: int| 0 <= k < ch ==> self.is_output_value(k, #[trigger] y@[k]),
            decreases self.input_chans - ch,
        {
            let r = (self.requantize)(self.sums[ch], area);
            let v = activate(self.fused_activation, r, self.output_zero_point, self.output_relu6_limit);
            proof {
                let sum = channel_sum(self.pixels@, ch as int, self.area() as nat);
                lemma_channel_sum_bounds(self.pixels@, ch as int, self.area() as nat);
                assert(sum as i32 == self.sums@[ch as int]);
                assert(call_ensures(self.requantize, (sum as i32, self.area() as usize), r));
            }
            assert(self.is_output_value(ch as int, v));
            y.push(v);
            ch = ch + 1;
        }
        y
    }

    /// What one push does: the operator takes `pixel`, and the push that completes the input
    /// (the first time it does) returns the output.
    pub open spec fn push_post(&self, pixel: Seq<T>, next: Self, out: Option<Seq<T>>) -> bool {
        &&& next.input_rows == self.input_rows
        &&& next.input_cols == self.input_cols
        &&& next.input_chans == self.input_chans
        &&& next.input_zero_point == self.input_zero_point
        &&& next.output_zero_point == self.output_zero_point
        &&& next.output_relu6_limit == self.output_relu6_limit
        &&& next.fused_activation == self.fused_activation
        &&& next.requantize == self.requantize
        &&& next.pixels@ == self.pixels@.push(pixel)
        &&& next.in_cycle == self.in_cycle + 1
        &&& match out {
            Some(y) => {
                &&& next.in_cycle == next.area()
                &&& self.out_cycle == 0
                &&& next.out_cycle == 1
                &&& next.is_output(y)
            },
            None => {
                &&& !(next.in_cycle == next.area() && self.out_cycle == 0)
                &&& next.out_cycle == self.out_cycle
            },
        }
    }

    /// The operator emits at most once: after the push that emits the output, no push emits
    /// again.
    pub proof fn lemma_emits_once(&self, x: Seq<T>, next: Self, y: Seq<T>, later: Self, out: Option<Seq<T>>)
        requires
            self.push_post(x, next, Some(y)),
            next.push_post(y, later, out),
        ensures
            out is None,
            later.finished(),
    {
    }

    /// A finished operator stays finished and emits nothing more.
    pub proof fn lemma_finished_stays_finished(&self, pixel: Seq<T>, next: Self, out: Option<Seq<T>>)
        requires
            self.finished(),
            self.push_post(pixel, next, out),
        ensures
            out is None,
            next.finished(),
    {
    }

    /// The output comes with the push that completes the input: a run of `area` pushes from a
    /// fresh operator emits exactly on its last push.
    pub proof fn lemma_emits_when_input_completes(&self, x: Seq<T>, next: Self, out: Option<Seq<T>>)
        requires
            self.wf(),
            self.out_cycle == 0,
            self.push_post(x, next, out),
        ensures
            out is Some <==> next.in_cycle == next.area(),
    {
    }

    /// Takes the next input pixel; the pixel that completes the input yields the output.
    pub fn push(&mut self, pixel: Vec<T>) -> (out: Option<Vec<T>>)
        requires
            old(self).wf(),
            pixel@.len() == old(self).input_chans,
            old(self).in_cycle < usize::MAX,
        ensures
            final(self).wf(),
            old(self).push_post(pixel@, *final(self), opt_view(out)),
    {
        proof {
            T::lemma_value_magnitude(self.input_zero_point);
            let a = self.area();
            assert(a <= a * T::magnitude()) by (nonlinear_arith)
                requires a >= 0, T::magnitude() >= 1;
        }
        let input_len = self.input_rows * self.input_cols;
        let ghost old_op = *self;
        if self.in_cycle < input_len {
            let mut ch: usize = 0;
            while ch < self.input_chans
                invariant
                    self.input_chans == old_op.input_chans,
                    self.pixels == old_op.pixels,
                    self.in_cycle == old_op.in_cycle,
                    self.input_rows == old_op.input_rows,
                    self.input_cols == old_op.input_cols,
                    self.out_cycle == old_op.out_cycle,
                    self.requantize == old_op.requantize,
                    self.input_zero_point == old_op.input_zero_point,
                    self.output_zero_point == old_op.output_zero_point,
                    self.output_relu6_limit == old_op.output_relu6_limit,
                    self.fused_activation == old_op.fused_activation,
                    old_op.wf(),
                    old_op.in_cycle < old_op.area(),
                    pixel@.len() == self.input_chans,
                    ch <= self.input_chans,
                    self.sums@.len() == self.input_chans,
                    forall|k: int|
                        0 <= k < ch ==> #[trigger] self.sums@[k] == old_op.sums@[k]
                            + pixel@[k].value(),
                    forall|k: int| ch <= k < self.input_chans ==> #[trigger] self.sums@[k] == old_op.sums@[k],
                decreases self.input_chans - ch,
            {
                proof {
                    let n = old_op.in_cycle as nat;
                    lemma_channel_sum_bounds(old_op.pixels@, ch as int, n);
                    T::lemma_value_magnitude(pixel@[ch as int]);
                    let m = T::magnitude();
                    assert(n * m + m <= old_op.area() * m) by (nonlinear_arith)
                        requires n < old_op.area(), m >= 1;
                }
                self.sums[ch] = self.sums[ch] + pixel[ch].to_i32();
                ch = ch + 1;
            }
        }
        self.in_cycle = self.in_cycle + 1;
        self.pixels = Ghost(self.pixels@.push(pixel@));
        proof {
            assert forall|ch: int| 0 <= ch < self.input_chans implies #[trigger] self.sums@[ch]
                == channel_sum(self.pixels@, ch, self.summed_count()) by {
                let n = old_op.summed_count();
                assert forall|m: nat| m <= n implies channel_sum(self.pixels@, ch, m) == channel_sum(old_op.pixels@, ch, m) by {
                    lemma_channel_sum_prefix(self.pixels@, old_op.pixels@, ch, m);
                }
                if old_op.in_cycle < old_op.area() {
                    assert(self.summed_count() == n + 1);
                    assert(self.pixels@[n as int] == pixel@);
                }
            }
        }
        if self.in_cycle == input_len && self.out_cycle == 0 {
            self.out_cycle = 1;
            Some(self.compute())
        } else {
            None
        }
    }

    /// The output has been emitted.
    pub fn is_finished(&self) -> (r: bool)
        ensures
            r == self.finished(),
    {
        self.out_cycle >= 1
    }

    /// The zero point of the output.
    pub fn output_zero_point(&self) -> (zp: T)
        ensures
            zp == self.output_zero_point,
    {
        self.output_zero_point
    }
}

/// A channel sum over a prefix depends only on the pixels of that prefix.
pub proof fn lemma_channel_sum_prefix<T: Quantized>(a: Seq<Seq<T>>, b: Seq<Seq<T>>, ch: int, m: nat)
    requires
        m <= a.len(),
        m <= b.len(),
        forall|i: int| 0 <= i < m ==> a[i] == b[i],
    ensures
        channel_sum(a, ch, m) == channel_sum(b, ch, m),
    decreases m,
{
    if m > 0 {
        lemma_channel_sum_prefix(a, b, ch, (m - 1) as nat);
    }
}

impl<T: Quantized, Q: Fn(i32, usize) -> T> StreamOp<T> for StreamingGlobalAveragePool2D<T, Q> {
    open spec fn inv(&self) -> bool {
        self.wf()
    }

    open spec fn in_len(&self) -> nat {
        self.input_chans as nat
    }

    open spec fn out_len(&self) -> nat {
        self.input_chans as nat
    }

    open spec fn finished(&self) -> bool {
        self.out_cycle >= 1
    }

    open spec fn room(&self) -> nat {
        (usize::MAX - self.in_cycle) as nat
    }

    open spec fn zero_point(&self) -> T {
        self.output_zero_point
    }

    open spec fn drain_extra(&self) -> nat {
        0
    }

    open spec fn out_count(&self) -> nat {
        1
    }

    proof fn lemma_push_keeps_metadata(&self, input: Seq<T>, next: Self, out: Option<Seq<T>>) {
    }

    open spec fn push_rel(&self, input: Seq<T>, next: Self, out: Option<Seq<T>>) -> bool {
        self.push_post(input, next, out)
    }

    fn push(&mut self, input: Vec<T>) -> (out: Option<Vec<T>>) {
        StreamingGlobalAveragePool2D::push(self, input)
    }

    fn is_finished(&self) -> (r: bool) {
        self.out_cycle >= 1
    }

    fn output_zero_point(&self) -> (zp: T) {
        self.output_zero_point
    }

    fn drain_hint(&self) -> (n: usize) {
        0
    }


    fn out_count_hint(&self) -> (n: usize) {
        1
    }
}

} // verus!
