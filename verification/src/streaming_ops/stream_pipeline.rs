//! Running a streaming operator over a whole tensor.
use vstd::prelude::*;

use crate::quantize::Quantized;
use crate::streaming_ops::stream_op::{opt_view, Chain, Identity, StreamOp};
use crate::streaming_ops::window::{copy_pixel, filled_pixel, zero_pixel};
use crate::tensor::Tensor4D;

verus! {

/// Pixel `i` of what the pipeline feeds its operator: the input in raster order, then pixels
/// at the input zero point that drain the operator.
pub open spec fn feed<T: Quantized>(input: &Tensor4D<T>, i: int) -> Seq<T> {
    if i < input.rows * input.cols {
        input.pixel(0, i)
    } else {
        zero_pixel(input.zero_point@[0], input.chans as nat)
    }
}

/// The output pixels emitted, in order.
pub open spec fn emitted<T>(outs: Seq<Option<Seq<T>>>) -> Seq<Seq<T>>
    decreases outs.len(),
{
    if outs.len() == 0 {
        Seq::empty()
    } else {
        let prev = emitted(outs.drop_last());
        match outs.last() {
            Some(y) => prev.push(y),
            None => prev,
        }
    }
}

/// `states` and `outs` are a run of `op` on the first `outs.len()` pixels of the feed:
/// `states[i]` takes feed pixel `i`, becomes `states[i + 1]` and returns `outs[i]`.
pub open spec fn is_run<T: Quantized, OP: StreamOp<T>>(
    op: OP,
    input: &Tensor4D<T>,
    states: Seq<OP>,
    outs: Seq<Option<Seq<T>>>,
) -> bool {
    &&& states.len() == outs.len() + 1
    &&& states[0] == op
    &&& forall|i: int| 0 <= i < states.len() ==> (#[trigger] states[i]).inv()
    &&& forall|i: int|
        0 <= i < outs.len() ==> #[trigger] states[i].push_rel(feed(input, i), states[i + 1], outs[i])
}

/// The most pixels that the pipeline drains its operator with: as many as the input and the
/// output hold, and the `extra` that the operator asks for.
pub open spec fn drain_limit<T: Quantized>(input: &Tensor4D<T>, output_rows: int, output_cols: int, extra: int) -> int {
    input.rows * input.cols + output_rows * output_cols + extra
}

/// The run feeds the whole input, then drains while the operator is not finished, up to
/// the drain limit.
pub open spec fn stops<T: Quantized, OP: StreamOp<T>>(
    input: &Tensor4D<T>,
    states: Seq<OP>,
    outs: Seq<Option<Seq<T>>>,
    output_rows: int,
    output_cols: int,
) -> bool {
    let total = input.rows * input.cols;
    let n = outs.len() as int;
    &&& n >= total
    &&& forall|i: int| total <= i < n ==> !(#[trigger] states[i].finished())
    &&& (states[n].finished() || n == total + drain_limit(input, output_rows, output_cols, states[0].drain_extra() as int))
}

/// Output pixel `p`: the `p`-th emitted pixel, or the input zero point where fewer were
/// emitted.
pub open spec fn placed<T>(outs: Seq<Option<Seq<T>>>, zero_point: T, chans: nat, p: int) -> Seq<T> {
    let e = emitted(outs);
    if p < e.len() {
        e[p]
    } else {
        zero_pixel(zero_point, chans)
    }
}

proof fn lemma_emitted_push<T>(outs: Seq<Option<Seq<T>>>, o: Option<Seq<T>>)
    ensures
        emitted(outs.push(o)) == match o {
            Some(y) => emitted(outs).push(y),
            None => emitted(outs),
        },
        emitted(outs.push(o)).len() <= emitted(outs).len() + 1,
{
    assert(outs.push(o).drop_last() =~= outs);
}

proof fn lemma_emitted_len<T>(outs: Seq<Option<Seq<T>>>)
    ensures
        emitted(outs).len() <= outs.len(),
    decreases outs.len(),
{
    if outs.len() > 0 {
        lemma_emitted_len(outs.drop_last());
    }
}

/// Whether each step of a run emitted.
pub open spec fn emit_flags<T>(outs: Seq<Option<Seq<T>>>) -> Seq<bool> {
    Seq::new(outs.len(), |i: int| outs[i] is Some)
}

/// The pixels of a one-batch tensor, in raster order.
pub open spec fn input_pixels<T: Quantized>(input: &Tensor4D<T>) -> Seq<Seq<T>> {
    Seq::new((input.rows * input.cols) as nat, |i: int| input.pixel(0, i))
}

/// The first `n` pixels of the feed.
pub open spec fn feed_prefix<T: Quantized>(input: &Tensor4D<T>, n: nat) -> Seq<Seq<T>> {
    Seq::new(n, |i: int| feed(input, i))
}

/// The emissions of a prefix of a run are a prefix of the run's emissions.
pub proof fn lemma_emitted_prefix<T>(outs: Seq<Option<Seq<T>>>, m: int)
    requires
        0 <= m <= outs.len(),
    ensures
        emitted(outs.take(m)).len() <= emitted(outs).len(),
        forall|q: int| 0 <= q < emitted(outs.take(m)).len() ==> #[trigger] emitted(outs.take(m))[q] == emitted(outs)[q],
    decreases outs.len(),
{
    if m == outs.len() {
        assert(outs.take(m) =~= outs);
    } else {
        let d = outs.drop_last();
        assert(outs.take(m) =~= d.take(m));
        lemma_emitted_prefix(d, m);
    }
}

/// The emissions among the first `i` steps are as many as the flags count.
pub proof fn lemma_emitted_count<T>(outs: Seq<Option<Seq<T>>>, i: int)
    requires
        0 <= i <= outs.len(),
    ensures
        emitted(outs.take(i)).len() == crate::streaming_ops::schedule::emission_count(emit_flags(outs), i as nat),
    decreases i,
{
    if i > 0 {
        lemma_emitted_count(outs, i - 1);
        assert(outs.take(i).drop_last() =~= outs.take(i - 1));
    }
}

/// The output that step `i` emits is the run's emission number `emission_count(.., i)`.
pub proof fn lemma_emitted_at<T>(outs: Seq<Option<Seq<T>>>, i: int)
    requires
        0 <= i < outs.len(),
        outs[i] is Some,
    ensures
        ({
            let q = crate::streaming_ops::schedule::emission_count(emit_flags(outs), i as nat) as int;
            q < emitted(outs).len() && emitted(outs)[q] == outs[i]->0
        }),
{
    lemma_emitted_count(outs, i);
    lemma_emitted_prefix(outs, i + 1);
    let t = outs.take(i + 1);
    assert(t.drop_last() =~= outs.take(i));
    assert(t.last() == outs[i]);
    assert(emitted(t) == emitted(outs.take(i)).push(outs[i]->0));
    let q = emitted(outs.take(i)).len() as int;
    assert(emitted(t)[q] == outs[i]->0);
}

/// Executes a streaming operator over a whole tensor: feeds it the input's pixels in raster
/// order, then drains it with pixels at the input zero point until it is finished (at most
/// `drain_limit` of them: the input's and the output's pixels and the operator's own drain), and places the emitted pixels in raster order into an output of
/// `output_rows` by `output_cols` pixels that starts at the input zero point. Pixels emitted
/// beyond the output's size are not kept. The output has the operator's output zero point.
pub fn stream_pipeline<T: Quantized, OP: StreamOp<T>>(
    input: &Tensor4D<T>,
    output_rows: usize,
    output_cols: usize,
    output_chans: usize,
    op: OP,
) -> (output: Tensor4D<T>)
    requires
        input.wf(),
        input.batches == 1,
        op.inv(),
        op.in_len() == input.chans,
        op.out_len() == output_chans,
        output_rows * output_cols <= usize::MAX,
        input.rows * input.cols + drain_limit(input, output_rows as int, output_cols as int, op.drain_extra() as int)
            <= op.room(),
        op.room() <= usize::MAX,
    ensures
        output.wf(),
        output.batches == 1,
        output.rows == output_rows,
        output.cols == output_cols,
        output.chans == output_chans,
        output.zero_point@ == seq![op.zero_point()],
        exists|states: Seq<OP>, outs: Seq<Option<Seq<T>>>|
            {
                &&& is_run(op, input, states, outs)
                &&& stops(input, states, outs, output_rows as int, output_cols as int)
                &&& forall|p: int|
                    0 <= p < output_rows * output_cols ==> #[trigger] output.pixel(0, p) == placed(
                        outs,
                        input.zero_point@[0],
                        output_chans as nat,
                        p,
                    )
            },
{
    let total = input.rows * input.cols;
    let capacity = output_rows * output_cols;
    let zero_point = input.zero_point[0];
    let mut pixels: Vec<Vec<T>> = Vec::new();
    let mut p: usize = 0;
    while p < capacity
        invariant
            p <= capacity,
            pixels@.len() == p,
            forall|k: int| 0 <= k < p ==> (#[trigger] pixels@[k])@ == zero_pixel(zero_point, output_chans as nat),
        decreases capacity - p,
    {
        pixels.push(filled_pixel(zero_point, output_chans));
        p = p + 1;
    }
    let output_zero_point = op.output_zero_point();
    let op_extra = op.drain_hint();
    let ghost op0 = op;
    let mut op = op;
    let ghost mut states: Seq<OP> = seq![op0];
    let ghost mut outs: Seq<Option<Seq<T>>> = Seq::empty();
    let mut pos: usize = 0;
    let mut i: usize = 0;
    let limit = total + capacity + op_extra;
    let mut extra: usize = 0;
    while i < total || (extra < limit && !op.is_finished())
        invariant
            input.wf(),
            input.batches == 1,
            total == input.rows * input.cols,
            capacity == output_rows * output_cols,
            limit == drain_limit(input, output_rows as int, output_cols as int, op0.drain_extra() as int),
            states[0] == op0,
            zero_point == input.zero_point@[0],
            op.inv(),
            op.zero_point() == op0.zero_point(),
            output_zero_point == op0.zero_point(),
            op.in_len() == input.chans,
            op.out_len() == output_chans,
            op.room() + outs.len() >= op0.room(),
            total + limit <= op0.room(),
            op0.room() <= usize::MAX,
            i <= total,
            extra <= limit,
            outs.len() == i + extra,
            i < total ==> extra == 0,
            is_run(op0, input, states, outs),
            states.last() == op,
            forall|k: int| total <= k < outs.len() ==> !(#[trigger] states[k].finished()),
            pos == emitted(outs).len(),
            forall|k: int| 0 <= k < emitted(outs).len() ==> (#[trigger] emitted(outs)[k]).len() == output_chans,
            pixels@.len() == capacity,
            forall|k: int| 0 <= k < capacity ==> (#[trigger] pixels@[k])@ == placed(outs, zero_point, output_chans as nat, k),
        decreases total + limit - i - extra,
    {
        let pixel = if i < total {
            proof {
                assert(feed(input, i as int) == input.pixel(0, i as int));
            }
            copy_pixel(&input.buffer[0][i])
        } else {
            filled_pixel(zero_point, input.chans)
        };
        let ghost before = op;
        let ghost n = outs.len() as int;
        assert(pixel@ == feed(input, n));
        let y = op.push(pixel);
        proof {
            lemma_emitted_push(outs, opt_view(y));
            lemma_emitted_len(outs);
            states = states.push(op);
            outs = outs.push(opt_view(y));
            assert forall|k: int| 0 <= k < outs.len() implies #[trigger] states[k].push_rel(feed(input, k), states[k + 1], outs[k]) by {
                if k < n {
                    assert(states[k] == states.drop_last()[k]);
                }
            }
            assert forall|k: int| 0 <= k < states.len() implies (#[trigger] states[k]).inv() by {
                if k < n + 1 {
                    assert(states[k] == states.drop_last()[k]);
                }
            }
        }
        match y {
            Some(v) => {
                if pos < capacity {
                    pixels[pos] = v;
                }
                pos = pos + 1;
            },
            None => {},
        }
        if i < total {
            i = i + 1;
        } else {
            extra = extra + 1;
        }
    }
    proof {
        assert forall|k: int| 0 <= k < capacity implies (#[trigger] pixels@[k])@.len() == output_chans by {
            assert(pixels@[k]@ == placed(outs, zero_point, output_chans as nat, k));
        }
        assert(is_run(op0, input, states, outs));
        assert(stops(input, states, outs, output_rows as int, output_cols as int));
    }
    Tensor4D {
        batches: 1,
        rows: output_rows,
        cols: output_cols,
        chans: output_chans,
        buffer: vec![pixels],
        zero_point: vec![output_zero_point],
    }
}

proof fn lemma_identity_emits_feed<T: Quantized>(
    id: Identity<T>,
    input: &Tensor4D<T>,
    states: Seq<Identity<T>>,
    outs: Seq<Option<Seq<T>>>,
    j: int,
)
    requires
        is_run(id, input, states, outs),
        0 <= j <= outs.len(),
    ensures
        emitted(outs.take(j)) == feed_prefix(input, j as nat),
    decreases j,
{
    if j == 0 {
        assert(outs.take(0) =~= Seq::<Option<Seq<T>>>::empty());
        assert(feed_prefix(input, 0) =~= Seq::<Seq<T>>::empty());
    } else {
        let i = j - 1;
        lemma_identity_emits_feed(id, input, states, outs, i);
        assert(states[i].push_rel(feed(input, i), states[i + 1], outs[i]));
        assert(outs.take(j).drop_last() =~= outs.take(j - 1));
        assert(emitted(outs.take(j)) =~= feed_prefix(input, j as nat));
    }
}

/// The pipeline with the identity operator gives back its input: run over a tensor with the
/// tensor's own dimensions, every output pixel is the input pixel at its position, and with
/// the input's zero point the output has it too.
pub proof fn lemma_identity_pipeline<T: Quantized>(id: Identity<T>, input: &Tensor4D<T>, output: &Tensor4D<T>)
    requires
        input.wf(),
        input.batches == 1,
        id.chans == input.chans,
        output.zero_point@ == seq![id.zero_point],
        exists|states: Seq<Identity<T>>, outs: Seq<Option<Seq<T>>>|
            {
                &&& is_run(id, input, states, outs)
                &&& stops(input, states, outs, input.rows as int, input.cols as int)
                &&& forall|p: int|
                    0 <= p < input.rows * input.cols ==> #[trigger] output.pixel(0, p) == placed(
                        outs,
                        input.zero_point@[0],
                        input.chans as nat,
                        p,
                    )
            },
    ensures
        forall|p: int| 0 <= p < input.rows * input.cols ==> #[trigger] output.pixel(0, p) == input.pixel(0, p),
        input.zero_point@ == seq![id.zero_point] ==> output.zero_point@ == input.zero_point@,
{
    let (states, outs) = choose|states: Seq<Identity<T>>, outs: Seq<Option<Seq<T>>>|
        {
            &&& is_run(id, input, states, outs)
            &&& stops(input, states, outs, input.rows as int, input.cols as int)
            &&& forall|p: int|
                0 <= p < input.rows * input.cols ==> #[trigger] output.pixel(0, p) == placed(
                    outs,
                    input.zero_point@[0],
                    input.chans as nat,
                    p,
                )
        };
    let n = outs.len() as int;
    lemma_identity_emits_feed(id, input, states, outs, n);
    assert(outs.take(n) =~= outs);
    assert forall|p: int| 0 <= p < input.rows * input.cols implies #[trigger] output.pixel(0, p) == input.pixel(0, p) by {
        assert(output.pixel(0, p) == placed(outs, input.zero_point@[0], input.chans as nat, p));
        assert(emitted(outs)[p] == feed(input, p));
    }
}

/// Every run of `op` over `input` emits at most `n` pixels, each pixel `p` in the relation
/// `rel` with `p`, and exactly `n` of them by the time `op` is finished.
pub open spec fn emits_as<T: Quantized, OP: StreamOp<T>>(
    op: OP,
    input: &Tensor4D<T>,
    n: nat,
    rel: spec_fn(int, Seq<T>) -> bool,
) -> bool {
    forall|states: Seq<OP>, outs: Seq<Option<Seq<T>>>|
        #[trigger] is_run(op, input, states, outs) ==> {
            &&& emitted(outs).len() <= n
            &&& forall|p: int| 0 <= p < emitted(outs).len() ==> rel(p, #[trigger] emitted(outs)[p])
            &&& states.last().finished() ==> emitted(outs).len() == n
        }
}

/// Every run of `op` over `input` of at least `m` pushes ends finished.
pub open spec fn finishes_within<T: Quantized, OP: StreamOp<T>>(op: OP, input: &Tensor4D<T>, m: nat) -> bool {
    forall|states: Seq<OP>, outs: Seq<Option<Seq<T>>>|
        #[trigger] is_run(op, input, states, outs) && outs.len() >= m ==> states.last().finished()
}

/// The pixel relation "is pixel `p` of `t`".
pub open spec fn is_pixel_of<T: Quantized>(t: &Tensor4D<T>) -> spec_fn(int, Seq<T>) -> bool {
    |p: int, y: Seq<T>| y == t.pixel(0, p)
}

/// A prefix of a run is a run.
pub proof fn lemma_run_prefix<T: Quantized, OP: StreamOp<T>>(
    op: OP,
    input: &Tensor4D<T>,
    states: Seq<OP>,
    outs: Seq<Option<Seq<T>>>,
    j: int,
)
    requires
        is_run(op, input, states, outs),
        0 <= j <= outs.len(),
    ensures
        is_run(op, input, states.take(j + 1), outs.take(j)),
        states.take(j + 1).last() == states[j],
{
    let st = states.take(j + 1);
    let ot = outs.take(j);
    assert forall|i: int| 0 <= i < ot.len() implies #[trigger] st[i].push_rel(feed(input, i), st[i + 1], ot[i]) by {
        assert(states[i].push_rel(feed(input, i), states[i + 1], outs[i]));
    }
    assert forall|i: int| 0 <= i < st.len() implies (#[trigger] st[i]).inv() by {
        assert(states[i].inv());
    }
}

/// A run of a chain splits into a run of its first operator over the input and a run of its
/// second operator over the first one's output tensor `mid` (when the first operator emits
/// the pixels of `mid`): after `j` pushes, the second operator has taken exactly the pixels
/// that the first has emitted, and the chain has emitted exactly what the second has.
proof fn lemma_chain_split<T: Quantized, A: StreamOp<T>, B: StreamOp<T>>(
    a: A,
    b: B,
    input: &Tensor4D<T>,
    mid: &Tensor4D<T>,
    cs: Seq<Chain<A, B>>,
    couts: Seq<Option<Seq<T>>>,
    j: int,
) -> (r: (Seq<A>, Seq<Option<Seq<T>>>, Seq<B>, Seq<Option<Seq<T>>>))
    requires
        is_run(Chain { a, b }, input, cs, couts),
        0 <= j <= couts.len(),
        mid.wf(),
        mid.batches == 1,
        emits_as(a, input, (mid.rows * mid.cols) as nat, is_pixel_of(mid)),
    ensures
        is_run(a, input, r.0, r.1),
        r.1.len() == j,
        r.0.last() == cs[j].a,
        is_run(b, mid, r.2, r.3),
        r.2.last() == cs[j].b,
        r.3.len() == emitted(r.1).len(),
        emitted(r.3) == emitted(couts.take(j)),
    decreases j,
{
    if j == 0 {
        assert(cs[0] == Chain { a, b });
        assert(couts.take(0) =~= Seq::<Option<Seq<T>>>::empty());
        assert(cs[0].inv());
        let sa = seq![a];
        let sb = seq![b];
        let e = Seq::<Option<Seq<T>>>::empty();
        assert(is_run(a, input, sa, e));
        assert(is_run(b, mid, sb, e));
        (sa, e, sb, e)
    } else {
        let i = j - 1;
        let (sa, mids, sb, bouts) = lemma_chain_split(a, b, input, mid, cs, couts, i);
        let c0 = cs[i];
        let c1 = cs[i + 1];
        assert(c0.push_rel(feed(input, i), c1, couts[i]));
        assert(c0.inv() && c1.inv());
        let m = choose|m: Option<Seq<T>>|
            #[trigger] c0.a.push_rel(feed(input, i), c1.a, m) && match m {
                Some(v) => c0.b.push_rel(v, c1.b, couts[i]),
                None => c1.b == c0.b && couts[i] is None,
            };
        let sa2 = sa.push(c1.a);
        let mids2 = mids.push(m);
        assert forall|k: int| 0 <= k < mids2.len() implies #[trigger] sa2[k].push_rel(feed(input, k), sa2[k + 1], mids2[k]) by {
            if k < i {
                assert(sa[k].push_rel(feed(input, k), sa[k + 1], mids[k]));
            }
        }
        assert forall|k: int| 0 <= k < sa2.len() implies (#[trigger] sa2[k]).inv() by {
            if k < sa.len() {
                assert(sa[k].inv());
            }
        }
        assert(is_run(a, input, sa2, mids2));
        lemma_emitted_push(mids, m);
        lemma_emitted_push(couts.take(i), couts[i]);
        assert(couts.take(j) =~= couts.take(i).push(couts[i]));
        match m {
            Some(v) => {
                let k = emitted(mids).len() as int;
                assert(emitted(mids2) == emitted(mids).push(v));
                assert(emitted(mids2)[k] == v);
                assert(is_pixel_of(mid)(k, emitted(mids2)[k]));
                assert(k < mid.rows * mid.cols);
                assert(feed(mid, k) == v);
                let sb2 = sb.push(c1.b);
                let bouts2 = bouts.push(couts[i]);
                assert forall|q: int| 0 <= q < bouts2.len() implies #[trigger] sb2[q].push_rel(feed(mid, q), sb2[q + 1], bouts2[q]) by {
                    if q < k {
                        assert(sb[q].push_rel(feed(mid, q), sb[q + 1], bouts[q]));
                    }
                }
                assert forall|q: int| 0 <= q < sb2.len() implies (#[trigger] sb2[q]).inv() by {
                    if q < sb.len() {
                        assert(sb[q].inv());
                    }
                }
                lemma_emitted_push(bouts, couts[i]);
                (sa2, mids2, sb2, bouts2)
            },
            None => {
                (sa2, mids2, sb, bouts)
            },
        }
    }
}

/// Every run of `op` over `input` of at least as many pushes as `input` has pixels ends
/// finished: the operator emits all its outputs without a drain.
pub open spec fn finishes_on_input<T: Quantized, OP: StreamOp<T>>(op: OP, input: &Tensor4D<T>) -> bool {
    forall|states: Seq<OP>, outs: Seq<Option<Seq<T>>>|
        #[trigger] is_run(op, input, states, outs) && outs.len() >= input.rows * input.cols
            ==> states.last().finished()
}

/// A chain computes its layers in sequence: when its first operator emits the pixels of the
/// tensor `mid` over `input`, and its second emits pixels in the relation `rel` over `mid`,
/// the chain emits pixels in the relation `rel` over `input`. If moreover the second operator
/// finishes within its input and the first one finishes within `m` pushes, the chain
/// finishes within `m` pushes.
pub proof fn lemma_chain_in_sequence<T: Quantized, A: StreamOp<T>, B: StreamOp<T>>(
    a: A,
    b: B,
    input: &Tensor4D<T>,
    mid: &Tensor4D<T>,
    n: nat,
    rel: spec_fn(int, Seq<T>) -> bool,
    m: nat,
)
    requires
        mid.wf(),
        mid.batches == 1,
        emits_as(a, input, (mid.rows * mid.cols) as nat, is_pixel_of(mid)),
        emits_as(b, mid, n, rel),
    ensures
        emits_as(Chain { a, b }, input, n, rel),
        finishes_within(a, input, m) && finishes_on_input(b, mid) ==> finishes_within(
            Chain { a, b },
            input,
            m,
        ),
{
    assert forall|cs: Seq<Chain<A, B>>, couts: Seq<Option<Seq<T>>>|
        #[trigger] is_run(Chain { a, b }, input, cs, couts) implies {
            &&& emitted(couts).len() <= n
            &&& forall|p: int| 0 <= p < emitted(couts).len() ==> rel(p, #[trigger] emitted(couts)[p])
            &&& cs.last().finished() ==> emitted(couts).len() == n
        } by {
        let j = couts.len() as int;
        let (sa, mids, sb, bouts) = lemma_chain_split(a, b, input, mid, cs, couts, j);
        assert(couts.take(j) =~= couts);
        assert(is_run(b, mid, sb, bouts));
        assert(cs.last() == cs[j]);
    }
    if finishes_within(a, input, m) && finishes_on_input(b, mid) {
        assert forall|cs: Seq<Chain<A, B>>, couts: Seq<Option<Seq<T>>>|
            #[trigger] is_run(Chain { a, b }, input, cs, couts) && couts.len() >= m implies cs.last().finished() by {
            let j = couts.len() as int;
            let (sa, mids, sb, bouts) = lemma_chain_split(a, b, input, mid, cs, couts, j);
            assert(is_run(a, input, sa, mids));
            assert(sa.last().finished());
            assert(emitted(mids).len() == mid.rows * mid.cols);
            assert(is_run(b, mid, sb, bouts));
            assert(sb.last().finished());
            assert(cs.last() == cs[j]);
        }
    }
}

/// The output of `stream_pipeline` over an operator that emits pixels in the relation `rel`,
/// as many as the output holds, and finishes within the pipeline's feed and drain, holds
/// those pixels: its pixel `p` is in the relation `rel` with `p`.
pub proof fn lemma_pipeline_output_emits<T: Quantized, OP: StreamOp<T>>(
    op: OP,
    input: &Tensor4D<T>,
    output: &Tensor4D<T>,
    output_rows: nat,
    output_cols: nat,
    output_chans: nat,
    rel: spec_fn(int, Seq<T>) -> bool,
)
    requires
        emits_as(op, input, output_rows * output_cols, rel),
        finishes_within(
            op,
            input,
            (input.rows * input.cols + drain_limit(input, output_rows as int, output_cols as int, op.drain_extra() as int)) as nat,
        ),
        exists|states: Seq<OP>, outs: Seq<Option<Seq<T>>>|
            {
                &&& is_run(op, input, states, outs)
                &&& stops(input, states, outs, output_rows as int, output_cols as int)
                &&& forall|p: int|
                    0 <= p < output_rows * output_cols ==> #[trigger] output.pixel(0, p) == placed(
                        outs,
                        input.zero_point@[0],
                        output_chans,
                        p,
                    )
            },
    ensures
        forall|p: int| 0 <= p < output_rows * output_cols ==> rel(p, #[trigger] output.pixel(0, p)),
{
    let (states, outs) = choose|states: Seq<OP>, outs: Seq<Option<Seq<T>>>|
        {
            &&& is_run(op, input, states, outs)
            &&& stops(input, states, outs, output_rows as int, output_cols as int)
            &&& forall|p: int|
                0 <= p < output_rows * output_cols ==> #[trigger] output.pixel(0, p) == placed(
                    outs,
                    input.zero_point@[0],
                    output_chans,
                    p,
                )
        };
    let n = outs.len() as int;
    assert(states.last() == states[n]);
    assert(states.last().finished());
    assert(emitted(outs).len() == output_rows * output_cols);
    assert forall|p: int| 0 <= p < output_rows * output_cols implies rel(p, #[trigger] output.pixel(0, p)) by {
        assert(output.pixel(0, p) == placed(outs, input.zero_point@[0], output_chans, p));
        assert(output.pixel(0, p) == emitted(outs)[p]);
    }
}

/// Emitting pixels in a relation carries over to any weaker relation: when `r1` implies `r2`
/// at each of the first `n` positions, an operator that emits in the relation `r1` emits in
/// the relation `r2`.
pub proof fn lemma_emits_as_weaken<T: Quantized, OP: StreamOp<T>>(
    op: OP,
    input: &Tensor4D<T>,
    n: nat,
    r1: spec_fn(int, Seq<T>) -> bool,
    r2: spec_fn(int, Seq<T>) -> bool,
)
    requires
        emits_as(op, input, n, r1),
        forall|p: int, y: Seq<T>| 0 <= p < n && #[trigger] r1(p, y) ==> r2(p, y),
    ensures
        emits_as(op, input, n, r2),
{
    assert forall|states: Seq<OP>, outs: Seq<Option<Seq<T>>>|
        #[trigger] is_run(op, input, states, outs) implies {
            &&& emitted(outs).len() <= n
            &&& forall|p: int| 0 <= p < emitted(outs).len() ==> r2(p, #[trigger] emitted(outs)[p])
            &&& states.last().finished() ==> emitted(outs).len() == n
        } by {
        assert forall|p: int| 0 <= p < emitted(outs).len() implies r2(p, #[trigger] emitted(outs)[p]) by {
            assert(r1(p, emitted(outs)[p]));
        }
    }
}

/// `stream_pipeline` over a chain computes its two layers in sequence. Let the first operator
/// emit the pixels of the tensor `mid` over `input` and finish within the pipeline's feed and
/// drain, and let the second emit pixels in the relation `rel` over `mid` (as many as the
/// output holds) and finish on `mid` alone, with no drain of its own. Then every pixel of the
/// pipeline's output over the chain is in the relation `rel` with its position: the layers
/// applied one after the other.
pub proof fn lemma_chain_pipeline_in_sequence<T: Quantized, A: StreamOp<T>, B: StreamOp<T>>(
    a: A,
    b: B,
    input: &Tensor4D<T>,
    mid: &Tensor4D<T>,
    output: &Tensor4D<T>,
    output_rows: nat,
    output_cols: nat,
    output_chans: nat,
    rel: spec_fn(int, Seq<T>) -> bool,
    m: nat,
)
    requires
        mid.wf(),
        mid.batches == 1,
        emits_as(a, input, (mid.rows * mid.cols) as nat, is_pixel_of(mid)),
        finishes_within(a, input, m),
        m <= input.rows * input.cols + drain_limit(
            input,
            output_rows as int,
            output_cols as int,
            Chain { a, b }.drain_extra() as int,
        ),
        emits_as(b, mid, output_rows * output_cols, rel),
        finishes_on_input(b, mid),
        exists|states: Seq<Chain<A, B>>, outs: Seq<Option<Seq<T>>>|
            {
                &&& is_run(Chain { a, b }, input, states, outs)
                &&& stops(input, states, outs, output_rows as int, output_cols as int)
                &&& forall|p: int|
                    0 <= p < output_rows * output_cols ==> #[trigger] output.pixel(0, p) == placed(
                        outs,
                        input.zero_point@[0],
                        output_chans,
                        p,
                    )
            },
    ensures
        forall|p: int| 0 <= p < output_rows * output_cols ==> rel(p, #[trigger] output.pixel(0, p)),
{
    let limit = (input.rows * input.cols + drain_limit(
        input,
        output_rows as int,
        output_cols as int,
        Chain { a, b }.drain_extra() as int,
    )) as nat;
    assert(finishes_within(a, input, limit)) by {
        assert forall|states: Seq<A>, outs: Seq<Option<Seq<T>>>|
            #[trigger] is_run(a, input, states, outs) && outs.len() >= limit implies states.last().finished() by {
        }
    }
    lemma_chain_in_sequence(a, b, input, mid, output_rows * output_cols, rel, limit);
    lemma_pipeline_output_emits(Chain { a, b }, input, output, output_rows, output_cols, output_chans, rel);
}

} // verus!
