//! Operators that take the whole input tensor at once.
pub mod global_average_pool_2d;

pub use crate::streaming_ops::max_pool_2d::max_pool_2d;
pub use global_average_pool_2d::global_average_pool_2d;
