//! The verified core of a raw photo editor's processing: reading constants
//! and function bodies out of WGSL source, the decisions of a raw develop,
//! and the exact constants of the working space and white balance.

pub mod chars;
pub mod color_space;
pub mod raw_processing;
pub mod shader_probe;
pub mod text;
pub mod white_balance;
