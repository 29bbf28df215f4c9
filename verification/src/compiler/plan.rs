//! The order in which the compiler emits a model's layers.
use vstd::prelude::*;

use crate::compiler::operators::{
    is_streaming_operator, is_supported_layer, spec_is_streaming_operator, spec_is_supported_layer, BuiltinOperator,
};

verus! {

/// One step of the compiled model.
#[derive(Clone, Copy, PartialEq, Eq, Structural, Debug)]
pub enum LayerStep {
    /// Operator `i` joins the streaming pipeline.
    Stream(usize),
    /// The buffered streaming operators are emitted as one pipeline.
    FlushPipeline,
    /// Operator `i` is emitted as a standalone layer.
    Layer(usize),
}

/// An operator that the compiler cannot emit, by its index in the model.
#[derive(Clone, Copy, PartialEq, Eq, Structural, Debug)]
pub struct UnsupportedOperator {
    pub index: usize,
    pub opcode: BuiltinOperator,
}

/// The steps for the first `n` operators, and whether streaming operators are buffered at
/// the end of them: with streaming enabled, streaming operators join the pipeline, and the
/// pipeline is flushed before the next standalone layer.
pub open spec fn plan_prefix(ops: Seq<BuiltinOperator>, streaming: bool, n: nat) -> Result<
    (Seq<LayerStep>, bool),
    UnsupportedOperator,
>
    decreases n,
{
    if n == 0 {
        Ok((Seq::empty(), false))
    } else {
        match plan_prefix(ops, streaming, (n - 1) as nat) {
            Err(e) => Err(e),
            Ok((steps, pending)) => {
                let i = (n - 1) as int;
                let op = ops[i];
                if streaming && spec_is_streaming_operator(op) {
                    Ok((steps.push(LayerStep::Stream(i as usize)), true))
                } else if spec_is_supported_layer(op) {
                    let flushed = if streaming && pending {
                        steps.push(LayerStep::FlushPipeline)
                    } else {
                        steps
                    };
                    Ok((flushed.push(LayerStep::Layer(i as usize)), false))
                } else {
                    Err(UnsupportedOperator { index: i as usize, opcode: op })
                }
            },
        }
    }
}

/// The steps of the whole model: those of all operators, then a final flush of the pipeline
/// if streaming operators are still buffered; the first operator that cannot be emitted is
/// an error.
pub open spec fn spec_plan_layers(ops: Seq<BuiltinOperator>, streaming: bool) -> Result<
    Seq<LayerStep>,
    UnsupportedOperator,
> {
    match plan_prefix(ops, streaming, ops.len()) {
        Err(e) => Err(e),
        Ok((steps, pending)) => Ok(
            if streaming && pending {
                steps.push(LayerStep::FlushPipeline)
            } else {
                steps
            },
        ),
    }
}

/// Plans the layers of a model from its operator codes, with or without kernel streaming.
pub fn plan_layers(ops: &Vec<BuiltinOperator>, enable_kernel_streaming: bool) -> (r: Result<
    Vec<LayerStep>,
    UnsupportedOperator,
>)
    ensures
        match r {
            Ok(steps) => spec_plan_layers(ops@, enable_kernel_streaming) == Ok::<Seq<LayerStep>, UnsupportedOperator>(steps@),
            Err(e) => spec_plan_layers(ops@, enable_kernel_streaming) == Err::<Seq<LayerStep>, UnsupportedOperator>(e),
        },
{
    let mut steps: Vec<LayerStep> = Vec::new();
    let mut pending = false;
    let mut i: usize = 0;
    while i < ops.len()
        invariant
            i <= ops@.len(),
            plan_prefix(ops@, enable_kernel_streaming, i as nat) == Ok::<(Seq<LayerStep>, bool), UnsupportedOperator>((steps@, pending)),
        decreases ops@.len() - i,
    {
        let op = ops[i];
        if enable_kernel_streaming && is_streaming_operator(op) {
            steps.push(LayerStep::Stream(i));
            pending = true;
        } else if is_supported_layer(op) {
            if enable_kernel_streaming && pending {
                steps.push(LayerStep::FlushPipeline);
            }
            steps.push(LayerStep::Layer(i));
            pending = false;
        } else {
            proof {
                lemma_plan_error_sticks(ops@, enable_kernel_streaming, (i + 1) as nat, ops@.len());
            }
            return Err(UnsupportedOperator { index: i, opcode: op });
        }
        i = i + 1;
    }
    if enable_kernel_streaming && pending {
        steps.push(LayerStep::FlushPipeline);
    }
    Ok(steps)
}

/// Once a prefix of the model fails, every longer prefix fails with the same error.
proof fn lemma_plan_error_sticks(ops: Seq<BuiltinOperator>, streaming: bool, m: nat, n: nat)
    requires
        m <= n,
        plan_prefix(ops, streaming, m) is Err,
    ensures
        plan_prefix(ops, streaming, n) == plan_prefix(ops, streaming, m),
    decreases n - m,
{
    if m < n {
        lemma_plan_error_sticks(ops, streaming, m, (n - 1) as nat);
    }
}

/// The operator can be emitted: every streaming operator joins the pipeline when streaming is
/// on; otherwise the operator must be a supported standalone layer.
pub open spec fn emittable(op: BuiltinOperator, streaming: bool) -> bool {
    if streaming && spec_is_streaming_operator(op) {
        true
    } else {
        spec_is_supported_layer(op)
    }
}

proof fn lemma_prefix_outcome(ops: Seq<BuiltinOperator>, streaming: bool, n: nat)
    requires
        n <= ops.len(),
        ops.len() <= usize::MAX,
    ensures
        plan_prefix(ops, streaming, n) is Ok <==> forall|i: int| 0 <= i < n ==> #[trigger] emittable(ops[i], streaming),
        plan_prefix(ops, streaming, n) matches Err(e) ==> {
            &&& e.index < n
            &&& e.opcode == ops[e.index as int]
            &&& !emittable(ops[e.index as int], streaming)
            &&& forall|i: int| 0 <= i < e.index ==> #[trigger] emittable(ops[i], streaming)
        },
    decreases n,
{
    if n > 0 {
        let m = (n - 1) as nat;
        lemma_prefix_outcome(ops, streaming, m);
        let op = ops[m as int];
        match plan_prefix(ops, streaming, m) {
            Err(e) => {
                assert(!emittable(ops[e.index as int], streaming));
            },
            Ok(_) => {
                if emittable(op, streaming) {
                    assert(plan_prefix(ops, streaming, n) is Ok);
                    assert forall|i: int| 0 <= i < n implies #[trigger] emittable(ops[i], streaming) by {
                        if i < m {
                            assert(emittable(ops[i], streaming));
                        }
                    }
                } else {
                    assert(plan_prefix(ops, streaming, n) == Err::<(Seq<LayerStep>, bool), UnsupportedOperator>(
                        UnsupportedOperator { index: m as usize, opcode: op },
                    ));
                }
            },
        }
    }
}

/// A model's plan fails exactly when one of its operators cannot be emitted, and the error
/// names the first such operator, by its index and code.
pub proof fn lemma_plan_error_is_first_unemittable(ops: Seq<BuiltinOperator>, streaming: bool)
    requires
        ops.len() <= usize::MAX,
    ensures
        spec_plan_layers(ops, streaming) is Ok <==> forall|i: int| 0 <= i < ops.len() ==> #[trigger] emittable(ops[i], streaming),
        spec_plan_layers(ops, streaming) matches Err(e) ==> {
            &&& e.index < ops.len()
            &&& e.opcode == ops[e.index as int]
            &&& !emittable(ops[e.index as int], streaming)
            &&& forall|i: int| 0 <= i < e.index ==> #[trigger] emittable(ops[i], streaming)
        },
{
    lemma_prefix_outcome(ops, streaming, ops.len());
}

/// The operator index of a step that places one (`Stream` or `Layer`).
pub open spec fn step_index(step: LayerStep) -> Option<usize> {
    match step {
        LayerStep::Stream(i) => Some(i),
        LayerStep::Layer(i) => Some(i),
        LayerStep::FlushPipeline => None,
    }
}

/// The operator indices that the steps place, in order.
pub open spec fn placed_indices(steps: Seq<LayerStep>) -> Seq<usize>
    decreases steps.len(),
{
    if steps.len() == 0 {
        Seq::empty()
    } else {
        let prev = placed_indices(steps.drop_last());
        match step_index(steps.last()) {
            Some(i) => prev.push(i),
            None => prev,
        }
    }
}

/// A plan is well ordered: it places every operator once and in model order, a standalone
/// layer never comes right after a buffered streaming operator (the pipeline is flushed
/// first), the pipeline is flushed only when it holds operators and only right before a
/// standalone layer or at the end, and nothing is left buffered at the end. So each maximal
/// run of consecutive streaming operators becomes exactly one pipeline.
pub open spec fn well_ordered(steps: Seq<LayerStep>, n: nat) -> bool {
    &&& placed_indices(steps) == Seq::new(n, |i: int| i as usize)
    &&& forall|i: int| 0 < i < steps.len() && (#[trigger] steps[i]) is Layer ==> !(steps[i - 1] is Stream)
    &&& forall|i: int| 0 <= i < steps.len() && (#[trigger] steps[i]) is FlushPipeline ==> i > 0 && steps[i - 1] is Stream
    &&& forall|i: int| 0 <= i < steps.len() && (#[trigger] steps[i]) is FlushPipeline ==> i + 1 == steps.len()
        || steps[i + 1] is Layer
    &&& steps.len() > 0 ==> !(steps.last() is Stream)
}

proof fn lemma_plan_prefix_ordered(ops: Seq<BuiltinOperator>, streaming: bool, n: nat)
    requires
        n <= ops.len(),
        plan_prefix(ops, streaming, n) is Ok,
    ensures
        ({
            let (steps, pending) = plan_prefix(ops, streaming, n)->Ok_0;
            &&& placed_indices(steps) == Seq::new(n, |i: int| i as usize)
            &&& forall|i: int| 0 < i < steps.len() && (#[trigger] steps[i]) is Layer ==> !(steps[i - 1] is Stream)
            &&& forall|i: int| 0 <= i < steps.len() && (#[trigger] steps[i]) is FlushPipeline ==> i > 0 && steps[i - 1] is Stream
            &&& forall|i: int| 0 <= i < steps.len() && (#[trigger] steps[i]) is FlushPipeline ==> i + 1 < steps.len()
                && steps[i + 1] is Layer
            &&& pending <==> (steps.len() > 0 && steps.last() is Stream)
            &&& (!streaming ==> forall|i: int| 0 <= i < steps.len() ==> #[trigger] steps[i] == LayerStep::Layer(i as usize))
            &&& (!streaming ==> steps.len() == n)
        }),
    decreases n,
{
    if n > 0 {
        lemma_plan_prefix_ordered(ops, streaming, (n - 1) as nat);
        let (steps, pending) = plan_prefix(ops, streaming, (n - 1) as nat)->Ok_0;
        let (steps2, pending2) = plan_prefix(ops, streaming, n)->Ok_0;
        let i = (n - 1) as int;
        let flushed = if streaming && pending {
            steps.push(LayerStep::FlushPipeline)
        } else {
            steps
        };
        if streaming && spec_is_streaming_operator(ops[i]) {
            assert(steps2 == steps.push(LayerStep::Stream(i as usize)));
            assert(steps2.drop_last() =~= steps);
            assert(placed_indices(steps2) =~= Seq::new(n, |k: int| k as usize));
        } else {
            assert(steps2 == flushed.push(LayerStep::Layer(i as usize)));
            assert(steps2.drop_last() =~= flushed);
            if streaming && pending {
                assert(flushed.drop_last() =~= steps);
                assert(placed_indices(flushed) == placed_indices(steps));
            }
            assert(placed_indices(steps2) =~= Seq::new(n, |k: int| k as usize));
        }
    }
}

/// Every plan that succeeds is well ordered; without streaming it is one standalone layer
/// per operator, in model order.
pub proof fn lemma_plan_well_ordered(ops: Seq<BuiltinOperator>, streaming: bool)
    requires
        spec_plan_layers(ops, streaming) is Ok,
    ensures
        well_ordered(spec_plan_layers(ops, streaming)->Ok_0, ops.len()),
        !streaming ==> spec_plan_layers(ops, streaming)->Ok_0 == layer_steps(ops.len()),
{
    lemma_plan_prefix_ordered(ops, streaming, ops.len());
    let (steps, pending) = plan_prefix(ops, streaming, ops.len())->Ok_0;
    let r = spec_plan_layers(ops, streaming)->Ok_0;
    if streaming && pending {
        assert(r.drop_last() =~= steps);
        assert(placed_indices(r) == placed_indices(steps));
    }
    if !streaming {
        assert(r =~= layer_steps(ops.len()));
    }
}

/// The TensorFlow Lite operators that a model can hold when it is compiled without kernel
/// streaming: FULLY_CONNECTED, DEPTHWISE_CONV_2D, CONV_2D, AVERAGE_POOL_2D, MEAN, SOFTMAX,
/// RESHAPE and TRANSPOSE, by their builtin codes.
pub open spec fn is_standalone_layer_code(code: i32) -> bool {
    code == 9 || code == 4 || code == 3 || code == 1 || code == 40 || code == 25 || code == 22 || code == 39
}

/// One `Layer` step for each of the first `n` operators, in order.
pub open spec fn layer_steps(n: nat) -> Seq<LayerStep> {
    Seq::new(n, |i: int| LayerStep::Layer(i as usize))
}

/// The plan of the first `n` operators, when they are all standalone layers: one `Layer`
/// step per operator, in order, with nothing buffered.
proof fn lemma_prefix_of_layers(ops: Seq<BuiltinOperator>, n: nat)
    requires
        n <= ops.len(),
        forall|i: int| 0 <= i < n ==> is_standalone_layer_code(#[trigger] ops[i].0),
    ensures
        plan_prefix(ops, false, n) == Ok::<(Seq<LayerStep>, bool), UnsupportedOperator>(
            (layer_steps(n), false),
        ),
    decreases n,
{
    if n == 0 {
        assert(layer_steps(0) =~= Seq::<LayerStep>::empty());
    } else {
        let m = (n - 1) as nat;
        lemma_prefix_of_layers(ops, m);
        assert(is_standalone_layer_code(ops[m as int].0));
        assert(layer_steps(m).push(LayerStep::Layer(m as usize)) =~= layer_steps(n));
    }
}

/// Compiling without kernel streaming: a model made only of FULLY_CONNECTED,
/// DEPTHWISE_CONV_2D, CONV_2D, AVERAGE_POOL_2D, MEAN, SOFTMAX, RESHAPE and TRANSPOSE
/// operators plans as one standalone layer per operator, in order, with no pipeline; any
/// other operator makes the plan fail, naming the first such operator by index and code.
pub proof fn lemma_plan_without_streaming(ops: Seq<BuiltinOperator>)
    requires
        ops.len() <= usize::MAX,
    ensures
        (forall|i: int| 0 <= i < ops.len() ==> is_standalone_layer_code(#[trigger] ops[i].0))
            ==> spec_plan_layers(ops, false) == Ok::<Seq<LayerStep>, UnsupportedOperator>(
            layer_steps(ops.len()),
        ),
        forall|j: int|
            0 <= j < ops.len() && !is_standalone_layer_code(#[trigger] ops[j].0) && (forall|i: int|
                0 <= i < j ==> is_standalone_layer_code(#[trigger] ops[i].0)) ==> spec_plan_layers(ops, false)
                == Err::<Seq<LayerStep>, UnsupportedOperator>(UnsupportedOperator { index: j as usize, opcode: ops[j] }),
{
    if forall|i: int| 0 <= i < ops.len() ==> is_standalone_layer_code(#[trigger] ops[i].0) {
        lemma_prefix_of_layers(ops, ops.len());
        let steps = layer_steps(ops.len());
        assert(plan_prefix(ops, false, ops.len()) == Ok::<(Seq<LayerStep>, bool), UnsupportedOperator>((steps, false)));
        assert(spec_plan_layers(ops, false) == Ok::<Seq<LayerStep>, UnsupportedOperator>(steps));
    }
    assert forall|j: int|
        0 <= j < ops.len() && !is_standalone_layer_code(#[trigger] ops[j].0) && (forall|i: int|
            0 <= i < j ==> is_standalone_layer_code(#[trigger] ops[i].0)) implies spec_plan_layers(ops, false)
            == Err::<Seq<LayerStep>, UnsupportedOperator>(UnsupportedOperator { index: j as usize, opcode: ops[j] }) by {
        lemma_prefix_of_layers(ops, j as nat);
        assert(plan_prefix(ops, false, (j + 1) as nat) == Err::<(Seq<LayerStep>, bool), UnsupportedOperator>(
            UnsupportedOperator { index: j as usize, opcode: ops[j] },
        ));
        lemma_plan_error_sticks(ops, false, (j + 1) as nat, ops.len());
    }
}

} // verus!
