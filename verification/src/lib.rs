//! A sequential reader for streams of length-prefixed blocks, with a
//! variable-length integer decoder over the block that is currently loaded.

pub mod block_reader;
pub mod frame;
pub mod source;
pub mod vint;
