//! Frame-accurate cutting of recorded broadcasts on sync-sample boundaries.

pub mod bytes;
pub mod cli;
pub mod dtvi;
pub mod jls;
pub mod logo;
pub mod messages;
pub mod mp4io;
pub mod notation;
pub mod order;
pub mod plan;
pub mod prepare;
pub mod report;
pub mod runs;
pub mod segmap;
pub mod sort;
pub mod sums;
pub mod text;
pub mod trim;
pub mod words;
