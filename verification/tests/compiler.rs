use microflow::compiler::operators::{
    is_supported_layer, quant_type, QuantType, TensorType, AVERAGE_POOL_2D,
    CONV_2D, FULLY_CONNECTED, MAX_POOL_2D, MEAN, SOFTMAX,
};
use microflow::compiler::pipeline::{StreamPipeline, StreamingNode};
use microflow::compiler::plan::{plan_layers, LayerStep, UnsupportedOperator};
use microflow::compiler::shapes::{
    max_pool_buffer_size, normalize_shape, pad_4d, pad_output_shape, tensor_kind, TensorKind,
    UnsupportedRank,
};
use microflow::{is_streaming_operator, BuiltinOperator};

fn node(index: usize, in_shape: Vec<usize>, out_shape: Vec<usize>) -> StreamingNode<String, String> {
    StreamingNode {
        setup_tokens: format!("setup_{}", index),
        op_ident: format!("stream_op_{}", index),
        input_type: "i8".to_string(),
        in_shape,
        out_shape,
        index,
    }
}

#[test]
fn streaming_operators() {
    assert!(is_streaming_operator(BuiltinOperator(CONV_2D)));
    assert!(is_streaming_operator(BuiltinOperator(AVERAGE_POOL_2D)));
    assert!(is_streaming_operator(BuiltinOperator(MAX_POOL_2D)));
    assert!(is_streaming_operator(BuiltinOperator(MEAN)));
    assert!(!is_streaming_operator(BuiltinOperator(FULLY_CONNECTED)));
    assert!(!is_streaming_operator(BuiltinOperator(SOFTMAX)));
    assert!(is_supported_layer(BuiltinOperator(SOFTMAX)));
    assert!(!is_supported_layer(BuiltinOperator(MAX_POOL_2D)));
}

#[test]
fn quant_types() {
    assert_eq!(quant_type(TensorType(9)), Some(QuantType::I8));
    assert_eq!(quant_type(TensorType(3)), Some(QuantType::U8));
    assert_eq!(quant_type(TensorType(0)), None);
}

#[test]
fn shapes() {
    assert_eq!(normalize_shape(vec![10]), vec![1, 10]);
    assert_eq!(normalize_shape(vec![1, 28, 28, 1]), vec![1, 28, 28, 1]);
    assert_eq!(tensor_kind(2), Ok(TensorKind::Tensor2D));
    assert_eq!(tensor_kind(4), Ok(TensorKind::Tensor4D));
    assert_eq!(tensor_kind(3), Err(UnsupportedRank { rank: 3 }));
    assert_eq!(pad_4d(&[1, 2, 3, 2]), Ok((2, 3, 2)));
    assert_eq!(pad_4d(&[1, 7]), Ok((1, 1, 7)));
    assert_eq!(pad_4d(&[1, 2, 3]), Err(UnsupportedRank { rank: 3 }));
    assert_eq!(pad_output_shape(vec![1, 2]), vec![1, 1, 1, 2]);
    assert_eq!(pad_output_shape(vec![5]), vec![5, 1, 1, 1]);
    assert_eq!(pad_output_shape(vec![1, 1, 1, 2]), vec![1, 1, 1, 2]);
    assert_eq!(max_pool_buffer_size(2, 2, 3), 5);
    assert_eq!(max_pool_buffer_size(0, 2, 3), 0);
}

#[test]
fn stream_pipeline_flush() {
    let mut pipeline: StreamPipeline<String, String> = StreamPipeline::new();
    assert!(pipeline.is_empty());
    assert_eq!(pipeline.first_index(), None);
    assert!(matches!(pipeline.flush(), Ok(None)));
    pipeline.push(node(3, vec![1, 2, 3, 2], vec![1, 2, 3, 2]));
    pipeline.push(node(4, vec![1, 2, 3, 2], vec![1, 2]));
    assert!(!pipeline.is_empty());
    assert_eq!(pipeline.first_index(), Some(3));
    let plan = pipeline.flush().unwrap().unwrap();
    assert_eq!(plan.in_dims, (2, 3, 2));
    assert_eq!(plan.out_dims, (1, 1, 2));
    assert!(plan.collapse_to_2d);
    assert_eq!(plan.stage_dims, vec![(2, 3, 2), (1, 1, 2)]);
    let idents: Vec<&str> = plan.nodes.iter().map(|n| n.op_ident.as_str()).collect();
    assert_eq!(idents, vec!["stream_op_3", "stream_op_4"]);
    assert!(pipeline.is_empty());
}

#[test]
fn stream_pipeline_flush_rejects_unsupported_rank() {
    let mut pipeline: StreamPipeline<String, String> = StreamPipeline::new();
    pipeline.push(node(0, vec![1, 2, 3], vec![1, 2, 3, 2]));
    assert_eq!(pipeline.flush().err(), Some(UnsupportedRank { rank: 3 }));
    assert!(!pipeline.is_empty());
    assert_eq!(pipeline.first_index(), Some(0));
}

#[test]
fn stream_pipeline_flush_rejects_unsupported_stage_rank() {
    // An inner node's output shape of unsupported rank fails the flush too.
    let mut pipeline: StreamPipeline<String, String> = StreamPipeline::new();
    pipeline.push(node(0, vec![1, 4, 4, 2], vec![1, 3, 3]));
    pipeline.push(node(1, vec![1, 3, 3, 2], vec![1, 2]));
    assert_eq!(pipeline.flush().err(), Some(UnsupportedRank { rank: 3 }));
    assert!(!pipeline.is_empty());
}

#[test]
fn layer_plans() {
    let ops = vec![
        BuiltinOperator(CONV_2D),
        BuiltinOperator(AVERAGE_POOL_2D),
        BuiltinOperator(FULLY_CONNECTED),
        BuiltinOperator(MEAN),
    ];
    assert_eq!(
        plan_layers(&ops, true),
        Ok(vec![
            LayerStep::Stream(0),
            LayerStep::Stream(1),
            LayerStep::FlushPipeline,
            LayerStep::Layer(2),
            LayerStep::Stream(3),
            LayerStep::FlushPipeline,
        ])
    );
    assert_eq!(
        plan_layers(&ops, false),
        Ok(vec![LayerStep::Layer(0), LayerStep::Layer(1), LayerStep::Layer(2), LayerStep::Layer(3)])
    );
    // With streaming, MAX_POOL_2D joins the pipeline; as a standalone layer it is refused.
    let with_max_pool = vec![BuiltinOperator(SOFTMAX), BuiltinOperator(MAX_POOL_2D)];
    assert_eq!(
        plan_layers(&with_max_pool, true),
        Ok(vec![LayerStep::Layer(0), LayerStep::Stream(1), LayerStep::FlushPipeline])
    );
    let err = UnsupportedOperator { index: 1, opcode: BuiltinOperator(MAX_POOL_2D) };
    assert_eq!(plan_layers(&with_max_pool, false), Err(err));
}

#[test]
fn plan_error_names_first_unsupported_operator() {
    // Operator 1 (code 99) cannot be emitted, nor operator 3 (MAX_POOL_2D) without streaming:
    // the error names the first, 1.
    let ops = vec![
        BuiltinOperator(CONV_2D),
        BuiltinOperator(99),
        BuiltinOperator(SOFTMAX),
        BuiltinOperator(MAX_POOL_2D),
    ];
    let err = UnsupportedOperator { index: 1, opcode: BuiltinOperator(99) };
    assert_eq!(plan_layers(&ops, true), Err(err));
    assert_eq!(plan_layers(&ops, false), Err(err));
    // Without the unknown code, the plan streams MAX_POOL_2D; without streaming it is the
    // first operator that cannot be emitted.
    let ops = vec![BuiltinOperator(CONV_2D), BuiltinOperator(SOFTMAX), BuiltinOperator(MAX_POOL_2D)];
    assert_eq!(
        plan_layers(&ops, true),
        Ok(vec![
            LayerStep::Stream(0),
            LayerStep::FlushPipeline,
            LayerStep::Layer(1),
            LayerStep::Stream(2),
            LayerStep::FlushPipeline,
        ])
    );
    assert_eq!(
        plan_layers(&ops, false),
        Err(UnsupportedOperator { index: 2, opcode: BuiltinOperator(MAX_POOL_2D) })
    );
}
