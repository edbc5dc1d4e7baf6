//! Decision and text logic of a speech-to-text toolkit, with machine-checked contracts.

pub mod decode;
pub mod number;
pub mod onnx;
pub mod text;
pub mod types;
pub mod whisper_cpp;
pub mod word_grouping;
