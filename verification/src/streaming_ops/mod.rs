pub mod average_pool_2d;
pub mod conv_2d;
pub mod global_average_pool_2d;
pub mod max_pool_2d;
pub mod schedule;
pub mod stream_op;
pub mod stream_pipeline;
pub mod window;

pub use average_pool_2d::StreamingAveragePool2D;
pub use conv_2d::StreamingConv2D;
pub use global_average_pool_2d::StreamingGlobalAveragePool2D;
pub use max_pool_2d::StreamingMaxPool2D;
pub use stream_op::{Chain, ChainExt, Identity, StreamOp};
pub use stream_pipeline::stream_pipeline;
pub use window::StreamWindow;
