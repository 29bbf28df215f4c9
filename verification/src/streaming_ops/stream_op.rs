//! The interface of a streaming operator, and the operators that compose others.
use vstd::prelude::*;

use crate::quantize::Quantized;

verus! {

/// The view of an optional output pixel.
pub open spec fn opt_view<T>(out: Option<Vec<T>>) -> Option<Seq<T>> {
    match out {
        Some(v) => Some(v@),
        None => None,
    }
}

/// An operator that takes its input one pixel at a time and emits output pixels as they
/// become complete.
pub trait StreamOp<T: Quantized>: Sized {
    /// The operator's invariant.
    spec fn inv(&self) -> bool;

    /// Number of channels of an input pixel.
    spec fn in_len(&self) -> nat;

    /// Number of channels of an output pixel.
    spec fn out_len(&self) -> nat;

    /// All outputs have been emitted.
    spec fn finished(&self) -> bool;

    /// How many more pushes the operator's counters can take.
    spec fn room(&self) -> nat;

    /// The zero point of the output.
    spec fn zero_point(&self) -> T;

    /// How many pixels past the input the operator may need to emit all its outputs.
    spec fn drain_extra(&self) -> nat;

    /// How many output pixels the operator emits in all.
    spec fn out_count(&self) -> nat;

    /// What one push does: from `self`, taking `input`, the operator becomes `next` and
    /// returns `out`.
    spec fn push_rel(&self, input: Seq<T>, next: Self, out: Option<Seq<T>>) -> bool;

    /// A push keeps the operator's channel counts, output zero point and output count.
    proof fn lemma_push_keeps_metadata(&self, input: Seq<T>, next: Self, out: Option<Seq<T>>)
        requires
            self.push_rel(input, next, out),
        ensures
            next.in_len() == self.in_len(),
            next.out_len() == self.out_len(),
            next.zero_point() == self.zero_point(),
            next.out_count() == self.out_count(),
    ;

    /// Takes the next input pixel and returns the output pixel that it completes, if any.
    fn push(&mut self, input: Vec<T>) -> (out: Option<Vec<T>>)
        requires
            old(self).inv(),
            input@.len() == old(self).in_len(),
            old(self).room() > 0,
        ensures
            final(self).inv(),
            final(self).in_len() == old(self).in_len(),
            final(self).out_len() == old(self).out_len(),
            final(self).zero_point() == old(self).zero_point(),
            final(self).room() + 1 >= old(self).room(),
            old(self).push_rel(input@, *final(self), opt_view(out)),
            match out {
                Some(v) => v@.len() == old(self).out_len(),
                None => true,
            },
    ;

    /// All outputs have been emitted.
    fn is_finished(&self) -> (r: bool)
        requires
            self.inv(),
        ensures
            r == self.finished(),
    ;

    /// The zero point of the output.
    fn output_zero_point(&self) -> (zp: T)
        ensures
            zp == self.zero_point(),
    ;

    /// How many pixels past the input the operator may need to emit all its outputs.
    fn drain_hint(&self) -> (n: usize)
        requires
            self.inv(),
        ensures
            n == self.drain_extra(),
    ;

    /// How many output pixels the operator emits in all.
    fn out_count_hint(&self) -> (n: usize)
        requires
            self.inv(),
        ensures
            n == self.out_count(),
    ;
}

/// The operator that passes each pixel on unchanged (useful for building pipelines).
pub struct Identity<T> {
    pub zero_point: T,
    pub chans: usize,
}

impl<T: Quantized> StreamOp<T> for Identity<T> {
    open spec fn inv(&self) -> bool {
        true
    }

    open spec fn in_len(&self) -> nat {
        self.chans as nat
    }

    open spec fn out_len(&self) -> nat {
        self.chans as nat
    }

    open spec fn finished(&self) -> bool {
        false
    }

    open spec fn room(&self) -> nat {
        usize::MAX as nat
    }

    open spec fn zero_point(&self) -> T {
        self.zero_point
    }

    open spec fn drain_extra(&self) -> nat {
        0
    }

    open spec fn out_count(&self) -> nat {
        0
    }

    open spec fn push_rel(&self, input: Seq<T>, next: Self, out: Option<Seq<T>>) -> bool {
        next == *self && out == Some(input)
    }

    proof fn lemma_push_keeps_metadata(&self, input: Seq<T>, next: Self, out: Option<Seq<T>>) {
    }

    fn push(&mut self, input: Vec<T>) -> (out: Option<Vec<T>>) {
        Some(input)
    }

    fn is_finished(&self) -> (r: bool) {
        false
    }

    fn output_zero_point(&self) -> (zp: T) {
        self.zero_point
    }

    fn drain_hint(&self) -> (n: usize) {
        0
    }


    fn out_count_hint(&self) -> (n: usize) {
        0
    }
}

/// Two operators in a row: the outputs of `a` are the inputs of `b`. A push reaches `b` only
/// when `a` emits, so `b` takes exactly the pixels of `a`'s output: a chain computes its two
/// layers in sequence when `b` needs no pixels past its input for its last outputs (see
/// `lemma_chain_pipeline_in_sequence`). The compiler runs each operator as a drained stage
/// of its own instead.
pub struct Chain<A, B> {
    pub a: A,
    pub b: B,
}

impl<T: Quantized, A: StreamOp<T>, B: StreamOp<T>> StreamOp<T> for Chain<A, B> {
    open spec fn inv(&self) -> bool {
        &&& self.a.inv()
        &&& self.b.inv()
        &&& self.a.out_len() == self.b.in_len()
    }

    open spec fn in_len(&self) -> nat {
        self.a.in_len()
    }

    open spec fn out_len(&self) -> nat {
        self.b.out_len()
    }

    /// The chained metadata is that of the last operator.
    open spec fn finished(&self) -> bool {
        self.b.finished()
    }

    open spec fn room(&self) -> nat {
        if self.a.room() <= self.b.room() {
            self.a.room()
        } else {
            self.b.room()
        }
    }

    open spec fn zero_point(&self) -> T {
        self.b.zero_point()
    }

    /// The drains of both operators, as far as `usize` holds.
    open spec fn drain_extra(&self) -> nat {
        let n = self.a.drain_extra() + self.b.drain_extra();
        if n <= usize::MAX {
            n
        } else {
            usize::MAX as nat
        }
    }

    open spec fn out_count(&self) -> nat {
        self.b.out_count()
    }

    /// `a` takes the input; what it emits, if anything, `b` takes; `b` is left alone when
    /// `a` emits nothing.
    open spec fn push_rel(&self, input: Seq<T>, next: Self, out: Option<Seq<T>>) -> bool {
        exists|mid: Option<Seq<T>>|
            #[trigger] self.a.push_rel(input, next.a, mid) && match mid {
                Some(m) => self.b.push_rel(m, next.b, out),
                None => next.b == self.b && out is None,
            }
    }

    proof fn lemma_push_keeps_metadata(&self, input: Seq<T>, next: Self, out: Option<Seq<T>>) {
        let mid = choose|mid: Option<Seq<T>>|
            #[trigger] self.a.push_rel(input, next.a, mid) && match mid {
                Some(m) => self.b.push_rel(m, next.b, out),
                None => next.b == self.b && out is None,
            };
        self.a.lemma_push_keeps_metadata(input, next.a, mid);
        match mid {
            Some(m) => {
                self.b.lemma_push_keeps_metadata(m, next.b, out);
            },
            None => {},
        }
    }

    fn push(&mut self, input: Vec<T>) -> (out: Option<Vec<T>>) {
        let mid = self.a.push(input);
        let ghost mid_view = opt_view(mid);
        assert(old(self).a.push_rel(input@, self.a, mid_view));
        match mid {
            Some(m) => self.b.push(m),
            None => None,
        }
    }

    fn is_finished(&self) -> (r: bool) {
        self.b.is_finished()
    }

    fn output_zero_point(&self) -> (zp: T) {
        self.b.output_zero_point()
    }

    fn drain_hint(&self) -> (n: usize) {
        self.a.drain_hint().saturating_add(self.b.drain_hint())
    }


    fn out_count_hint(&self) -> (n: usize) {
        self.b.out_count_hint()
    }
}

/// Chains operators with a method call.
pub trait ChainExt<T: Quantized>: StreamOp<T> {
    /// This operator followed by `b`.
    fn and_then<B: StreamOp<T>>(self, b: B) -> (c: Chain<Self, B>)
        ensures
            c.a == self,
            c.b == b,
    {
        Chain { a: self, b }
    }
}

impl<T: Quantized, A: StreamOp<T>> ChainExt<T> for A {
}

/// Chaining is associative: `(a then b) then c` and `a then (b then c)` take the same
/// inputs, emit the same outputs and have the same metadata, push for push.
pub proof fn lemma_chain_associative<T: Quantized, A: StreamOp<T>, B: StreamOp<T>, C: StreamOp<T>>(
    a: A,
    b: B,
    c: C,
    a2: A,
    b2: B,
    c2: C,
    input: Seq<T>,
    out: Option<Seq<T>>,
)
    ensures
        ({
            let left = Chain { a: Chain { a, b }, b: c };
            let right = Chain { a, b: Chain { a: b, b: c } };
            let left2 = Chain { a: Chain { a: a2, b: b2 }, b: c2 };
            let right2 = Chain { a: a2, b: Chain { a: b2, b: c2 } };
            &&& left.inv() == right.inv()
            &&& left.in_len() == right.in_len()
            &&& left.out_len() == right.out_len()
            &&& left.finished() == right.finished()
            &&& left.zero_point() == right.zero_point()
            &&& left.push_rel(input, left2, out) <==> right.push_rel(input, right2, out)
        }),
{
    let left = Chain { a: Chain { a, b }, b: c };
    let right = Chain { a, b: Chain { a: b, b: c } };
    let left2 = Chain { a: Chain { a: a2, b: b2 }, b: c2 };
    let right2 = Chain { a: a2, b: Chain { a: b2, b: c2 } };
    if left.push_rel(input, left2, out) {
        assert(left.a == Chain { a, b } && left2.a == Chain { a: a2, b: b2 } && left.b == c && left2.b == c2);
        let mid1 = choose|mid1: Option<Seq<T>>|
            #[trigger] left.a.push_rel(input, left2.a, mid1) && match mid1 {
                Some(m) => left.b.push_rel(m, left2.b, out),
                None => left2.b == left.b && out is None,
            };
        let la = left.a;
        let la2 = left2.a;
        assert(la.a == a && la2.a == a2 && la.b == b && la2.b == b2);
        let mid0 = choose|mid0: Option<Seq<T>>|
            #[trigger] la.a.push_rel(input, la2.a, mid0) && match mid0 {
                Some(m) => la.b.push_rel(m, la2.b, mid1),
                None => la2.b == la.b && mid1 is None,
            };
        let cb = Chain { a: b, b: c };
        let cb2 = Chain { a: b2, b: c2 };
        assert(cb.a == b && cb2.a == b2 && cb.b == c && cb2.b == c2);
        match mid0 {
            Some(m) => {
                assert(cb.a.push_rel(m, cb2.a, mid1));
                assert(cb.push_rel(m, cb2, out));
            },
            None => {},
        }
        assert(right.a == a && right2.a == a2 && right.b == cb && right2.b == cb2);
        assert(right.a.push_rel(input, right2.a, mid0));
        assert(right.push_rel(input, right2, out));
    }
    if right.push_rel(input, right2, out) {
        let cb = Chain { a: b, b: c };
        let cb2 = Chain { a: b2, b: c2 };
        assert(right.a == a && right2.a == a2 && right.b == cb && right2.b == cb2);
        assert(cb.a == b && cb2.a == b2 && cb.b == c && cb2.b == c2);
        let mid0 = choose|mid0: Option<Seq<T>>|
            #[trigger] right.a.push_rel(input, right2.a, mid0) && match mid0 {
                Some(m) => right.b.push_rel(m, right2.b, out),
                None => right2.b == right.b && out is None,
            };
        let la = left.a;
        let la2 = left2.a;
        assert(la.a == a && la2.a == a2 && la.b == b && la2.b == b2);
        assert(left.a == la && left2.a == la2 && left.b == c && left2.b == c2);
        match mid0 {
            Some(m) => {
                let mid1 = choose|mid1: Option<Seq<T>>|
                    #[trigger] cb.a.push_rel(m, cb2.a, mid1) && match mid1 {
                        Some(m2) => cb.b.push_rel(m2, cb2.b, out),
                        None => cb2.b == cb.b && out is None,
                    };
                assert(la.a.push_rel(input, la2.a, mid0));
                assert(la.push_rel(input, la2, mid1));
                assert(left.a.push_rel(input, left2.a, mid1));
                assert(left.push_rel(input, left2, out));
            },
            None => {
                assert(la.a.push_rel(input, la2.a, mid0));
                assert(la.push_rel(input, la2, None));
                assert(left.a.push_rel(input, left2.a, None));
                assert(left.push_rel(input, left2, out));
            },
        }
    }
}

} // verus!
