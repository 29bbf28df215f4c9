//! When a stream of window steps emits its outputs: each emission is the next output in
//! raster order, and once the input has reached every output's required cycle, every push
//! emits until all outputs are out.
use vstd::arithmetic::div_mod::{
    lemma_fundamental_div_mod, lemma_fundamental_div_mod_converse, lemma_mod_bound,
};
use vstd::prelude::*;

use crate::quantize::Quantized;
use crate::streaming_ops::window::StreamWindow;

verus! {

/// One push of a window: `next` took one more pixel, and emitted the next output exactly
/// when it became due.
pub open spec fn window_step<T: Quantized>(w: StreamWindow<T>, next: StreamWindow<T>, emitted: bool) -> bool {
    &&& next.same_config(&w)
    &&& next.in_cycle == w.in_cycle + 1
    &&& emitted ==> next.due(w.out_cycle as int) && next.out_cycle == w.out_cycle + 1
    &&& !emitted ==> !next.due(w.out_cycle as int) && next.out_cycle == w.out_cycle
}

/// `ws` is a sequence of window steps, `es[i]` telling whether step `i` emitted.
pub open spec fn window_run<T: Quantized>(ws: Seq<StreamWindow<T>>, es: Seq<bool>) -> bool {
    &&& ws.len() == es.len() + 1
    &&& forall|i: int| 0 <= i < es.len() ==> #[trigger] window_step(ws[i], ws[i + 1], es[i])
}

/// The number of emissions among the first `n` steps.
pub open spec fn emission_count(es: Seq<bool>, n: nat) -> nat
    decreases n,
{
    if n == 0 {
        0
    } else {
        emission_count(es, (n - 1) as nat) + if es[n - 1] {
            1nat
        } else {
            0nat
        }
    }
}

/// The latest cycle that any of the first `n` outputs requires.
pub open spec fn max_required<T: Quantized>(w: StreamWindow<T>, n: nat) -> int
    decreases n,
{
    if n == 0 {
        0
    } else {
        let prev = max_required(w, (n - 1) as nat);
        let r = w.required_cycles(n - 1);
        if r > prev {
            r
        } else {
            prev
        }
    }
}

pub proof fn lemma_max_required_bounds<T: Quantized>(w: StreamWindow<T>, n: nat, k: int)
    requires
        0 <= k < n,
    ensures
        w.required_cycles(k) <= max_required(w, n),
    decreases n,
{
    if k < n - 1 {
        lemma_max_required_bounds(w, (n - 1) as nat, k);
    }
}

proof fn lemma_required_positive<T: Quantized>(w: StreamWindow<T>, k: int)
    requires
        w.config_ok(),
        0 <= k,
    ensures
        w.required_cycles(k) >= 1,
{
    w.lemma_out_extents();
    let oc = w.out_cols();
    let q = k / oc;
    let r = k % oc;
    assert(q >= 0 && r >= 0) by {
        vstd::arithmetic::div_mod::lemma_mod_bound(k, oc);
        vstd::arithmetic::div_mod::lemma_fundamental_div_mod(k, oc);
        assert(k / oc >= 0) by (nonlinear_arith)
            requires k >= 0, oc >= 1, k == oc * (k / oc) + k % oc, 0 <= k % oc < oc;
    }
    let a = q * w.strides.0;
    let b = r * w.strides.1;
    assert(a >= 0 && b >= 0) by (nonlinear_arith)
        requires q >= 0, r >= 0, w.strides.0 >= 0, w.strides.1 >= 0, a == q * w.strides.0, b == r * w.strides.1;
    let req_row = a + crate::streaming_ops::window::sat_sub(crate::streaming_ops::window::sat_sub(w.filter_rows as int, 1), w.shift_rows as int);
    assert(req_row * w.input_cols >= 0) by (nonlinear_arith)
        requires req_row >= 0, w.input_cols >= 0;
}

pub proof fn lemma_required_same_config<T: Quantized>(a: StreamWindow<T>, b: StreamWindow<T>, n: nat)
    requires
        a.same_config(&b),
    ensures
        max_required(a, n) == max_required(b, n),
        a.total_output() == b.total_output(),
        a.out_cols() == b.out_cols(),
    decreases n,
{
    if n > 0 {
        lemma_required_same_config(a, b, (n - 1) as nat);
    }
}

/// Along a run, the configuration stays that of the first window, and the cycles count the
/// steps.
pub proof fn lemma_run_config<T: Quantized>(ws: Seq<StreamWindow<T>>, es: Seq<bool>, j: int)
    requires
        window_run(ws, es),
        0 <= j < ws.len(),
    ensures
        ws[j].same_config(&ws[0]),
        ws[j].in_cycle == ws[0].in_cycle + j,
        ws[j].out_cycle == ws[0].out_cycle + emission_count(es, j as nat),
    decreases j,
{
    if j > 0 {
        lemma_run_config(ws, es, j - 1);
        let i = j - 1;
        assert(window_step(ws[i], ws[i + 1], es[i]));
    }
}

/// Each emission of a run is the next output in raster order: step `i` emits output
/// `ws[i].out_cycle`, the number of emissions before it.
pub proof fn lemma_emission_order<T: Quantized>(ws: Seq<StreamWindow<T>>, es: Seq<bool>, i: int)
    requires
        window_run(ws, es),
        ws[0].out_cycle == 0,
        0 <= i < es.len(),
        es[i],
    ensures
        ws[i].out_cycle == emission_count(es, i as nat),
        ws[i + 1].due(emission_count(es, i as nat) as int),
{
    lemma_run_config(ws, es, i);
    assert(window_step(ws[i], ws[i + 1], es[i]));
}

/// Once the pushes have reached the latest required cycle, every push of an unfinished window
/// emits: after `j` steps from the start of the input, at least `j + 1 - M` outputs are out,
/// where `M` is the latest required cycle.
pub proof fn lemma_run_progress<T: Quantized>(ws: Seq<StreamWindow<T>>, es: Seq<bool>, j: int)
    requires
        window_run(ws, es),
        ws[0].in_cycle == 0,
        ws[0].config_ok(),
        forall|i: int| 0 <= i < ws.len() ==> (#[trigger] ws[i]).out_cycle <= ws[i].total_output(),
        0 <= j < ws.len(),
    ensures
        ({
            let m = max_required(ws[0], ws[0].total_output() as nat);
            &&& ws[j].out_cycle >= ws[0].out_cycle
            &&& (j + 1 - m >= ws[0].total_output() ==> ws[j].out_cycle >= ws[0].total_output())
            &&& (0 <= j + 1 - m < ws[0].total_output() ==> ws[j].out_cycle >= j + 1 - m)
        }),
    decreases j,
{
    let total = ws[0].total_output();
    let m = max_required(ws[0], total as nat);
    lemma_run_config(ws, es, j);
    assert(total >= 0) by {
        ws[0].lemma_out_extents();
        assert(ws[0].out_rows() * ws[0].out_cols() >= 0) by (nonlinear_arith)
            requires ws[0].out_rows() >= 0, ws[0].out_cols() >= 1;
    }
    if total >= 1 {
        lemma_max_required_bounds(ws[0], total as nat, 0);
        lemma_required_positive(ws[0], 0);
    }
    if j > 0 {
        lemma_run_progress(ws, es, j - 1);
        lemma_run_config(ws, es, j - 1);
        let i = j - 1;
        let prev = ws[i];
        assert(window_step(ws[i], ws[i + 1], es[i]));
        lemma_required_same_config(prev, ws[0], total as nat);
        let k = prev.out_cycle as int;
        if k < total && j >= m {
            lemma_max_required_bounds(prev, total as nat, k);
            assert(ws[j].due(k));
        }
    }
}

/// Every output between the run's first and last count is emitted by some step.
pub proof fn lemma_emission_reaches<T: Quantized>(ws: Seq<StreamWindow<T>>, es: Seq<bool>, n: int, p: int)
    requires
        window_run(ws, es),
        0 <= n < ws.len(),
        ws[0].out_cycle <= p < ws[n].out_cycle,
    ensures
        exists|i: int| 0 <= i < n && #[trigger] es[i] && ws[i].out_cycle == p,
    decreases n,
{
    let i = n - 1;
    assert(window_step(ws[i], ws[i + 1], es[i]));
    if ws[i].out_cycle > p {
        lemma_emission_reaches(ws, es, i, p);
    } else {
        assert(es[i] && ws[i].out_cycle == p);
    }
}

/// The window has emitted every output that is due: the next output is not due yet, or all
/// outputs are out.
pub open spec fn caught_up<T: Quantized>(w: StreamWindow<T>) -> bool {
    w.out_cycle >= w.total_output() || w.in_cycle < w.required_cycles(w.out_cycle as int)
}

/// For a filter with taps, each output needs a strictly later cycle than the one before it
/// in raster order.
pub proof fn lemma_required_increasing<T: Quantized>(w: StreamWindow<T>, k: int)
    requires
        w.config_ok(),
        w.filter_cols >= 1,
        0 <= k,
        k + 1 < w.total_output(),
    ensures
        w.required_cycles(k) < w.required_cycles(k + 1),
{
    w.lemma_out_extents();
    let oc = w.out_cols();
    let c = w.input_cols as int;
    let s0 = w.strides.0 as int;
    let s1 = w.strides.1 as int;
    lemma_fundamental_div_mod(k, oc);
    lemma_mod_bound(k, oc);
    let q = k / oc;
    let r = k % oc;
    let ar = crate::streaming_ops::window::sat_sub(
        crate::streaming_ops::window::sat_sub(w.filter_rows as int, 1),
        w.shift_rows as int,
    );
    if r + 1 < oc {
        lemma_fundamental_div_mod_converse(k + 1, oc, q, r + 1);
        assert((r + 1) * s1 == r * s1 + s1) by (nonlinear_arith);
    } else {
        assert(k + 1 == (q + 1) * oc + 0) by (nonlinear_arith)
            requires k == oc * q + r, r + 1 == oc;
        lemma_fundamental_div_mod_converse(k + 1, oc, q + 1, 0);
        // The last output of a row needs an earlier cycle than the first of the next row.
        let cs = w.input_cols as int;
        lemma_fundamental_div_mod(cs, s1);
        lemma_mod_bound(cs, s1);
        if w.view_padding == crate::tensor::TensorViewPadding::Valid {
            let d = crate::streaming_ops::window::sat_sub(cs, w.filter_cols as int);
            lemma_fundamental_div_mod(d, s1);
            lemma_mod_bound(d, s1);
            assert((oc - 1) * s1 <= d) by (nonlinear_arith)
                requires oc - 1 == d / s1, d == s1 * (d / s1) + d % s1, 0 <= d % s1;
        } else {
            assert((oc - 1) * s1 < cs) by (nonlinear_arith)
                requires
                    oc == cs / s1 + if cs % s1 == 0 { 0int } else { 1int },
                    cs == s1 * (cs / s1) + cs % s1,
                    0 <= cs % s1 < s1,
                    cs >= 1;
        }
        assert((oc - 1) * s1 < c);
        assert((q * s0 + ar) * c + (oc - 1) * s1 < ((q + 1) * s0 + ar) * c) by (nonlinear_arith)
            requires (oc - 1) * s1 < c, s0 >= 1, c >= 1;
    }
}

/// Along a run from a fresh window whose filter has taps, the window stays caught up.
pub proof fn lemma_run_caught_up<T: Quantized>(ws: Seq<StreamWindow<T>>, es: Seq<bool>, j: int)
    requires
        window_run(ws, es),
        ws[0].in_cycle == 0,
        ws[0].out_cycle == 0,
        ws[0].config_ok(),
        ws[0].filter_cols >= 1,
        0 <= j < ws.len(),
    ensures
        caught_up(ws[j]),
    decreases j,
{
    lemma_run_config(ws, es, j);
    if j == 0 {
        if ws[0].total_output() > 0 {
            lemma_required_positive(ws[0], 0);
        }
    } else {
        let i = j - 1;
        lemma_run_caught_up(ws, es, i);
        lemma_run_config(ws, es, i);
        let w = ws[i];
        assert(window_step(ws[i], ws[i + 1], es[i]));
        if es[i] && (w.out_cycle + 1) < w.total_output() {
            lemma_required_increasing(ws[0], w.out_cycle as int);
        }
    }
}

/// A run from a fresh window whose filter has taps serves each output promptly: the push
/// that emits output `k` is the one that brings the last pixel of its window.
pub proof fn lemma_run_prompt<T: Quantized>(ws: Seq<StreamWindow<T>>, es: Seq<bool>, i: int)
    requires
        window_run(ws, es),
        ws[0].in_cycle == 0,
        ws[0].out_cycle == 0,
        ws[0].config_ok(),
        ws[0].filter_cols >= 1,
        0 <= i < es.len(),
        es[i],
    ensures
        ws[i + 1].in_cycle == ws[i + 1].required_cycles(ws[i].out_cycle as int),
{
    lemma_run_caught_up(ws, es, i);
    lemma_run_config(ws, es, i);
    lemma_run_config(ws, es, i + 1);
    assert(window_step(ws[i], ws[i + 1], es[i]));
}


proof fn lemma_required_at_most<T: Quantized>(w: StreamWindow<T>, k: int)
    requires
        w.config_ok(),
        0 <= k < w.total_output(),
    ensures
        w.required_cycles(k) <= (w.input_rows + w.filter_rows + 1) * w.input_cols + w.filter_cols + 1,
{
    w.lemma_required_cycles_fit(k);
    w.lemma_out_extents();
    let oc = w.out_cols();
    let orows = w.out_rows();
    let q = k / oc;
    let r = k % oc;
    let rows = w.input_rows as int;
    let cols = w.input_cols as int;
    let s0 = w.strides.0 as int;
    let s1 = w.strides.1 as int;
    let fr = w.filter_rows as int;
    let fc = w.filter_cols as int;
    let ar = crate::streaming_ops::window::sat_sub(crate::streaming_ops::window::sat_sub(fr, 1), w.shift_rows as int);
    let ac = crate::streaming_ops::window::sat_sub(crate::streaming_ops::window::sat_sub(fc, 1), w.shift_cols as int);
    assert(w.required_cycles(k) == (q * s0 + ar) * cols + r * s1 + ac + 1);
    lemma_fundamental_div_mod(rows, s0);
    lemma_mod_bound(rows, s0);
    lemma_fundamental_div_mod(cols, s1);
    lemma_mod_bound(cols, s1);
    assert(q * s0 <= (orows - 1) * s0) by (nonlinear_arith)
        requires 0 <= q <= orows - 1, s0 >= 1;
    assert(r * s1 <= (oc - 1) * s1) by (nonlinear_arith)
        requires 0 <= r <= oc - 1, s1 >= 1;
    if w.view_padding == crate::tensor::TensorViewPadding::Valid {
        let dr = crate::streaming_ops::window::sat_sub(rows, fr);
        let dc = crate::streaming_ops::window::sat_sub(cols, fc);
        lemma_fundamental_div_mod(dr, s0);
        lemma_mod_bound(dr, s0);
        lemma_fundamental_div_mod(dc, s1);
        lemma_mod_bound(dc, s1);
        assert((orows - 1) * s0 <= dr) by (nonlinear_arith)
            requires orows - 1 == dr / s0, dr == s0 * (dr / s0) + dr % s0, 0 <= dr % s0;
        assert((oc - 1) * s1 <= dc) by (nonlinear_arith)
            requires oc - 1 == dc / s1, dc == s1 * (dc / s1) + dc % s1, 0 <= dc % s1;
    } else {
        if rows >= 1 {
            assert((orows - 1) * s0 <= rows - 1) by (nonlinear_arith)
                requires
                    orows == rows / s0 + if rows % s0 == 0 { 0int } else { 1int },
                    rows == s0 * (rows / s0) + rows % s0,
                    0 <= rows % s0 < s0,
                    rows >= 1;
        }
        assert((oc - 1) * s1 <= cols - 1) by (nonlinear_arith)
            requires
                oc == cols / s1 + if cols % s1 == 0 { 0int } else { 1int },
                cols == s1 * (cols / s1) + cols % s1,
                0 <= cols % s1 < s1,
                cols >= 1;
    }
    assert(q * s0 + ar <= rows + fr);
    assert(r * s1 + ac <= cols + fc);
    assert((q * s0 + ar) * cols <= (rows + fr) * cols) by (nonlinear_arith)
        requires 0 <= q * s0 + ar <= rows + fr, cols >= 1;
    assert((rows + fr) * cols + cols == (rows + fr + 1) * cols) by (nonlinear_arith);
}

proof fn lemma_required_within<T: Quantized>(w: StreamWindow<T>, k: int)
    requires
        w.config_ok(),
        w.filter_rows >= 1,
        w.filter_cols >= 1,
        0 <= k < w.total_output(),
    ensures
        w.required_cycles(k) <= (w.input_rows + w.filter_rows) * w.input_cols + w.filter_cols,
{
    w.lemma_required_cycles_fit(k);
    w.lemma_out_extents();
    let oc = w.out_cols();
    let orows = w.out_rows();
    let q = k / oc;
    let r = k % oc;
    let rows = w.input_rows as int;
    let cols = w.input_cols as int;
    let s0 = w.strides.0 as int;
    let s1 = w.strides.1 as int;
    let fr = w.filter_rows as int;
    let fc = w.filter_cols as int;
    let ar = crate::streaming_ops::window::sat_sub(crate::streaming_ops::window::sat_sub(fr, 1), w.shift_rows as int);
    let ac = crate::streaming_ops::window::sat_sub(crate::streaming_ops::window::sat_sub(fc, 1), w.shift_cols as int);
    assert(w.required_cycles(k) == (q * s0 + ar) * cols + r * s1 + ac + 1);
    lemma_fundamental_div_mod(rows, s0);
    lemma_mod_bound(rows, s0);
    lemma_fundamental_div_mod(cols, s1);
    lemma_mod_bound(cols, s1);
    assert(q * s0 <= (orows - 1) * s0) by (nonlinear_arith)
        requires 0 <= q <= orows - 1, s0 >= 1;
    assert(r * s1 <= (oc - 1) * s1) by (nonlinear_arith)
        requires 0 <= r <= oc - 1, s1 >= 1;
    if w.view_padding == crate::tensor::TensorViewPadding::Valid {
        let dr = crate::streaming_ops::window::sat_sub(rows, fr);
        let dc = crate::streaming_ops::window::sat_sub(cols, fc);
        lemma_fundamental_div_mod(dr, s0);
        lemma_mod_bound(dr, s0);
        lemma_fundamental_div_mod(dc, s1);
        lemma_mod_bound(dc, s1);
        assert((orows - 1) * s0 <= dr) by (nonlinear_arith)
            requires orows - 1 == dr / s0, dr == s0 * (dr / s0) + dr % s0, 0 <= dr % s0;
        assert((oc - 1) * s1 <= dc) by (nonlinear_arith)
            requires oc - 1 == dc / s1, dc == s1 * (dc / s1) + dc % s1, 0 <= dc % s1;
    } else {
        if rows >= 1 {
            assert((orows - 1) * s0 <= rows - 1) by (nonlinear_arith)
                requires
                    orows == rows / s0 + if rows % s0 == 0 { 0int } else { 1int },
                    rows == s0 * (rows / s0) + rows % s0,
                    0 <= rows % s0 < s0,
                    rows >= 1;
        }
        assert((oc - 1) * s1 <= cols - 1) by (nonlinear_arith)
            requires
                oc == cols / s1 + if cols % s1 == 0 { 0int } else { 1int },
                cols == s1 * (cols / s1) + cols % s1,
                0 <= cols % s1 < s1,
                cols >= 1;
    }
    assert(q * s0 + ar <= rows + fr - 1);
    assert(r * s1 + ac <= cols + fc - 1);
    assert((q * s0 + ar) * cols <= (rows + fr - 1) * cols) by (nonlinear_arith)
        requires 0 <= q * s0 + ar <= rows + fr - 1, cols >= 1;
    assert((rows + fr - 1) * cols + cols == (rows + fr) * cols) by (nonlinear_arith);
}

proof fn lemma_max_required_at_most<T: Quantized>(w: StreamWindow<T>, n: nat)
    requires
        w.config_ok(),
        n <= w.total_output(),
    ensures
        max_required(w, n) <= (w.input_rows + w.filter_rows + 1) * w.input_cols + w.filter_cols + 1,
    decreases n,
{
    if n > 0 {
        lemma_max_required_at_most(w, (n - 1) as nat);
        lemma_required_at_most(w, n - 1);
    }
    assert((w.input_rows + w.filter_rows + 1) * w.input_cols >= 0) by (nonlinear_arith)
        requires w.input_rows >= 0, w.filter_rows >= 0, w.input_cols >= 0;
}

proof fn lemma_max_required_within<T: Quantized>(w: StreamWindow<T>, n: nat)
    requires
        w.config_ok(),
        w.filter_rows >= 1,
        w.filter_cols >= 1,
        n <= w.total_output(),
    ensures
        max_required(w, n) <= (w.input_rows + w.filter_rows) * w.input_cols + w.filter_cols,
    decreases n,
{
    if n > 0 {
        lemma_max_required_within(w, (n - 1) as nat);
        lemma_required_within(w, n - 1);
    }
    assert((w.input_rows + w.filter_rows) * w.input_cols >= 0) by (nonlinear_arith)
        requires w.input_rows >= 0, w.filter_rows >= 0, w.input_cols >= 0;
}

/// A fresh window whose filter has taps finishes within `(rows + filter_rows) * cols +
/// filter_cols` pushes plus one per output, whatever the pixels: after that many steps of a
/// run, every output is out.
pub proof fn lemma_run_finishes<T: Quantized>(ws: Seq<StreamWindow<T>>, es: Seq<bool>, n: int)
    requires
        window_run(ws, es),
        ws[0].in_cycle == 0,
        ws[0].out_cycle == 0,
        ws[0].config_ok(),
        ws[0].filter_rows >= 1,
        ws[0].filter_cols >= 1,
        forall|i: int| 0 <= i < ws.len() ==> (#[trigger] ws[i]).out_cycle <= ws[i].total_output(),
        0 <= n < ws.len(),
        n >= (ws[0].input_rows + ws[0].filter_rows) * ws[0].input_cols + ws[0].filter_cols
            + ws[0].total_output(),
    ensures
        ws[n].finished(),
{
    let w = ws[0];
    w.lemma_out_extents();
    assert(w.total_output() >= 0) by (nonlinear_arith)
        requires w.out_rows() >= 0, w.out_cols() >= 1;
    lemma_max_required_within(w, w.total_output() as nat);
    lemma_run_progress(ws, es, n);
    lemma_run_config(ws, es, n);
    lemma_required_same_config(ws[n], w, w.total_output() as nat);
}

/// The window's own drain reaches every output: the latest cycle that an output needs, plus
/// one push per output, stays within the input, the output and the window's `drain_extra`.
pub proof fn lemma_drain_reaches_outputs<T: Quantized>(w: StreamWindow<T>)
    requires
        w.config_ok(),
    ensures
        max_required(w, w.total_output() as nat) + w.total_output()
            <= w.total_input() + (w.total_input() + w.total_output() + w.drain_extra()) + 1,
{
    w.lemma_out_extents();
    assert(w.total_output() >= 0) by (nonlinear_arith)
        requires w.out_rows() >= 0, w.out_cols() >= 1;
    assert(w.total_input() >= 0) by (nonlinear_arith)
        requires w.input_rows >= 0, w.input_cols >= 0, w.total_input() == w.input_rows * w.input_cols;
    lemma_max_required_at_most(w, w.total_output() as nat);
    assert((w.input_rows + w.filter_rows + 1) * w.input_cols == w.total_input() + (w.filter_rows + 1) * w.input_cols) by (nonlinear_arith)
        requires w.total_input() == w.input_rows * w.input_cols;
}

/// With Valid padding and a filter that fits the input, every output is due by the push of
/// the input's last pixel: the windows lie inside the input.
pub proof fn lemma_valid_outputs_due_on_input<T: Quantized>(w: StreamWindow<T>, n: nat)
    requires
        w.config_ok(),
        w.view_padding == crate::tensor::TensorViewPadding::Valid,
        1 <= w.filter_rows <= w.input_rows,
        1 <= w.filter_cols <= w.input_cols,
        n <= w.total_output(),
    ensures
        max_required(w, n) <= w.total_input(),
    decreases n,
{
    if n > 0 {
        lemma_valid_outputs_due_on_input(w, (n - 1) as nat);
        let k = n - 1;
        let oc = w.out_cols();
        let s0 = w.strides.0 as int;
        let s1 = w.strides.1 as int;
        let r = w.input_rows as int;
        let c = w.input_cols as int;
        let fr = w.filter_rows as int;
        let fc = w.filter_cols as int;
        w.lemma_out_extents();
        let orows = w.out_rows();
        assert(orows == (r - fr) / s0 + 1);
        assert(oc == (c - fc) / s1 + 1);
        let out_row = k / oc;
        let out_col = k % oc;
        assert(0 <= out_row < orows && 0 <= out_col < oc) by (nonlinear_arith)
            requires 0 <= k < orows * oc, oc >= 1, out_row == k / oc, out_col == k % oc;
        assert(out_row * s0 <= r - fr) by (nonlinear_arith)
            requires 0 <= out_row < (r - fr) / s0 + 1, s0 >= 1, r - fr >= 0;
        assert(out_col * s1 <= c - fc) by (nonlinear_arith)
            requires 0 <= out_col < (c - fc) / s1 + 1, s1 >= 1, c - fc >= 0;
        let req_row = out_row * s0 + fr - 1;
        let req_col = out_col * s1 + fc - 1;
        assert(w.required_cycles(k) == req_row * c + req_col + 1);
        assert(req_row * c + req_col + 1 <= r * c) by (nonlinear_arith)
            requires 0 <= req_row <= r - 1, 0 <= req_col <= c - 1, c >= 1;
    }
}

/// A window whose filter has taps has no more outputs than the input has pixels, plus one
/// row of them: each output extent is at most the input's, or one over an empty input.
pub proof fn lemma_total_output_bound<T: Quantized>(w: StreamWindow<T>)
    requires
        w.config_ok(),
        w.filter_rows >= 1,
        w.filter_cols >= 1,
    ensures
        w.total_output() <= w.total_input() + w.input_cols,
{
    let r = w.input_rows as int;
    let c = w.input_cols as int;
    let s0 = w.strides.0 as int;
    let s1 = w.strides.1 as int;
    let fr = w.filter_rows as int;
    let fc = w.filter_cols as int;
    w.lemma_out_extents();
    let orows = w.out_rows();
    let ocols = w.out_cols();
    if w.view_padding == crate::tensor::TensorViewPadding::Same {
        crate::streaming_ops::window::lemma_ceil_div_within(r, s0);
        crate::streaming_ops::window::lemma_ceil_div_within(c, s1);
    } else {
        if r >= fr {
            assert((r - fr) / s0 + 1 <= r) by (nonlinear_arith)
                requires r >= fr >= 1, s0 >= 1;
        }
        if c >= fc {
            assert((c - fc) / s1 + 1 <= c) by (nonlinear_arith)
                requires c >= fc >= 1, s1 >= 1;
        }
    }
    assert(orows <= r || orows <= 1);
    assert(ocols <= c);
    assert(orows * ocols <= r * c + c) by (nonlinear_arith)
        requires 0 <= orows, (orows <= r || orows <= 1), 0 <= ocols <= c, r >= 0;
}

} // verus!
