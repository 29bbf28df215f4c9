pub mod average_pool_2d;
pub mod conv_2d;
pub mod depthwise_conv_2d;
pub mod max_pool_2d;

pub use average_pool_2d::AveragePool2DOptions;
pub use conv_2d::Conv2DOptions;
pub use depthwise_conv_2d::DepthwiseConv2DOptions;
pub use max_pool_2d::MaxPool2DOptions;
