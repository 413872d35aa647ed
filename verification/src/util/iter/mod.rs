pub mod nd;
pub mod strides;
pub mod block;
