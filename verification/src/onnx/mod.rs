//! Models that run as ONNX graphs.

pub mod canary;
pub mod inputs;
