pub mod operators;
pub mod pipeline;
pub mod plan;
pub mod shapes;
