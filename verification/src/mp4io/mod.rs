//! Reading, checking and rewriting the sample tables of an mp4 file.

pub mod boxes;
pub mod checked;
pub mod interleave;
pub mod lossless;
pub mod order_map;
pub mod output;
pub mod placement;
pub mod read;
pub mod support;
pub mod tables;
pub mod write;
pub mod written;
