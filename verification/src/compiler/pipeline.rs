//! Aggregating streaming operators into a pipeline of stages.
use vstd::prelude::*;

use crate::compiler::shapes::{pad_4d, spec_pad_4d, UnsupportedRank};

verus! {

/// A single operator that has been parsed and is ready to be chained into a streaming
/// pipeline. `S` is the compiler's token stream type and `I` its identifier type.
pub struct StreamingNode<S, I> {
    /// The code that initializes the operator.
    pub setup_tokens: S,
    /// The identifier of the operator variable.
    pub op_ident: I,
    /// The element type of the input.
    pub input_type: S,
    /// The shape of the input tensor entering this operator.
    pub in_shape: Vec<usize>,
    /// The shape of the output tensor leaving this operator.
    pub out_shape: Vec<usize>,
    /// The operator's index within the model.
    pub index: usize,
}

/// What a flush emits: the buffered nodes in order (their setup code, then their
/// identifiers), the runtime dimensions of the pipeline, and whether its output is of rank 2
/// (a `[batch, chans]` tensor, held as `[1, 1, 1, chans]`). The nodes run as stages, one after another: node `i` streams over
/// the whole output of node `i - 1` (the first over the pipeline's input) into a tensor of
/// dimensions `stage_dims[i]`, and each stage is drained on its own, so that no operator
/// waits on pixels past its input for its last outputs.
pub struct PipelinePlan<S, I> {
    pub nodes: Vec<StreamingNode<S, I>>,
    pub in_dims: (usize, usize, usize),
    pub out_dims: (usize, usize, usize),
    pub collapse_to_2d: bool,
    pub stage_dims: Vec<(usize, usize, usize)>,
}

/// The output dimensions of each node, in order, as long as every output shape has a
/// supported rank; otherwise the error of the first node whose output shape has not.
pub open spec fn spec_stage_dims<S, I>(nodes: Seq<StreamingNode<S, I>>) -> Result<
    Seq<(usize, usize, usize)>,
    UnsupportedRank,
>
    decreases nodes.len(),
{
    if nodes.len() == 0 {
        Ok(Seq::empty())
    } else {
        match spec_stage_dims(nodes.drop_last()) {
            Err(e) => Err(e),
            Ok(dims) => match spec_pad_4d(nodes.last().out_shape@) {
                Ok(d) => Ok(dims.push(d)),
                Err(e) => Err(e),
            },
        }
    }
}

/// Aggregates streaming operators and compiles them into one pipeline.
pub struct StreamPipeline<S, I> {
    nodes: Vec<StreamingNode<S, I>>,
}

impl<S, I> View for StreamPipeline<S, I> {
    type V = Seq<StreamingNode<S, I>>;

    /// The buffered nodes, in the order they were pushed.
    closed spec fn view(&self) -> Seq<StreamingNode<S, I>> {
        self.nodes@
    }
}

/// Once the dimensions of a prefix of the nodes fail, those of every longer prefix fail with
/// the same error.
proof fn lemma_stage_dims_error_sticks<S, I>(nodes: Seq<StreamingNode<S, I>>, m: nat, n: nat)
    requires
        m <= n <= nodes.len(),
        spec_stage_dims(nodes.take(m as int)) is Err,
    ensures
        spec_stage_dims(nodes.take(n as int)) == spec_stage_dims(nodes.take(m as int)),
    decreases n - m,
{
    if m < n {
        lemma_stage_dims_error_sticks(nodes, m, (n - 1) as nat);
        assert(nodes.take(n as int).drop_last() =~= nodes.take(n - 1));
    }
}

impl<S, I> StreamPipeline<S, I> {
    /// An empty pipeline.
    pub fn new() -> (p: Self)
        ensures
            p@ == Seq::<StreamingNode<S, I>>::empty(),
    {
        StreamPipeline { nodes: Vec::new() }
    }

    /// Adds a parsed streaming operator to the buffer.
    pub fn push(&mut self, node: StreamingNode<S, I>)
        ensures
            final(self)@ == old(self)@.push(node),
    {
        self.nodes.push(node);
    }

    /// Returns true if no streaming operator is buffered.
    pub fn is_empty(&self) -> (r: bool)
        ensures
            r == (self@.len() == 0),
    {
        self.nodes.len() == 0
    }

    /// The operator index of the first buffered node, if any.
    pub fn first_index(&self) -> (r: Option<usize>)
        ensures
            r == if self@.len() == 0 {
                None
            } else {
                Some(self@[0].index)
            },
    {
        if self.nodes.len() == 0 {
            None
        } else {
            Some(self.nodes[0].index)
        }
    }

    /// Flushes the buffered operators: returns the plan of the pipeline that runs them as
    /// stages and empties the buffer. An empty buffer gives no plan. The pipeline's input
    /// dimensions come from the first node's input shape, each stage's dimensions from its
    /// node's output shape, and the pipeline's output dimensions from the last node's; a shape
    /// of unsupported rank is an error (the first node's input shape, then the output shapes in
    /// order), and the buffer is then left as it was.
    pub fn flush(&mut self) -> (r: Result<Option<PipelinePlan<S, I>>, UnsupportedRank>)
        ensures
            old(self)@.len() == 0 ==> r == Ok::<Option<PipelinePlan<S, I>>, UnsupportedRank>(None) && final(self)@ == old(self)@,
            old(self)@.len() > 0 ==> {
                let first = old(self)@[0];
                let last = old(self)@.last();
                match r {
                    Ok(plan) => {
                        &&& plan is Some
                        &&& spec_pad_4d(first.in_shape@) == Ok::<(usize, usize, usize), UnsupportedRank>(plan->0.in_dims)
                        &&& spec_stage_dims(old(self)@) == Ok::<Seq<(usize, usize, usize)>, UnsupportedRank>(plan->0.stage_dims@)
                        &&& spec_pad_4d(last.out_shape@) == Ok::<(usize, usize, usize), UnsupportedRank>(plan->0.out_dims)
                        &&& plan->0.collapse_to_2d == (last.out_shape@.len() == 2)
                        &&& plan->0.nodes@ == old(self)@
                        &&& final(self)@.len() == 0
                    },
                    Err(e) => {
                        &&& (spec_pad_4d(first.in_shape@) == Err::<(usize, usize, usize), UnsupportedRank>(e)
                            || (spec_pad_4d(first.in_shape@) is Ok && spec_stage_dims(old(self)@) == Err::<Seq<(usize, usize, usize)>, UnsupportedRank>(e)))
                        &&& final(self)@ == old(self)@
                    },
                }
            },
    {
        let n = self.nodes.len();
        if n == 0 {
            return Ok(None);
        }
        let in_dims = match pad_4d(self.nodes[0].in_shape.as_slice()) {
            Ok(d) => d,
            Err(e) => return Err(e),
        };
        let mut stage_dims: Vec<(usize, usize, usize)> = Vec::new();
        let mut i: usize = 0;
        while i < n
            invariant
                n == self.nodes@.len(),
                self.nodes@ == old(self)@,
                i <= n,
                spec_stage_dims(self.nodes@.take(i as int)) == Ok::<Seq<(usize, usize, usize)>, UnsupportedRank>(stage_dims@),
                stage_dims@.len() == i,
                spec_pad_4d(self.nodes@[0].in_shape@) == Ok::<(usize, usize, usize), UnsupportedRank>(in_dims),
                i > 0 ==> spec_pad_4d(self.nodes@[i - 1].out_shape@) == Ok::<(usize, usize, usize), UnsupportedRank>(stage_dims@[i - 1]),
            decreases n - i,
        {
            proof {
                assert(self.nodes@.take(i + 1).drop_last() =~= self.nodes@.take(i as int));
                assert(self.nodes@.take(i + 1).last() == self.nodes@[i as int]);
            }
            match pad_4d(self.nodes[i].out_shape.as_slice()) {
                Ok(d) => stage_dims.push(d),
                Err(e) => {
                    proof {
                        lemma_stage_dims_error_sticks(self.nodes@, (i + 1) as nat, n as nat);
                        assert(self.nodes@.take(n as int) =~= self.nodes@);
                    }
                    return Err(e);
                },
            }
            i = i + 1;
        }
        proof {
            assert(self.nodes@.take(n as int) =~= self.nodes@);
            assert(self.nodes@[n - 1] == old(self)@.last());
        }
        let out_dims = stage_dims[n - 1];
        let collapse_to_2d = self.nodes[n - 1].out_shape.len() == 2;
        let mut nodes: Vec<StreamingNode<S, I>> = Vec::new();
        std::mem::swap(&mut nodes, &mut self.nodes);
        Ok(Some(PipelinePlan { nodes, in_dims, out_dims, collapse_to_2d, stage_dims }))
    }
}

} // verus!
