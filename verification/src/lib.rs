//! Word-list processing: pure transforms over in-memory collections of tokens.

pub mod text;
pub mod select;
pub mod order;
pub mod sorting;
pub mod processors;
pub mod pipeline;
pub mod laws;
pub mod file_system;
