//! Finding station logos: logo data, logo positions, and the frames that show a logo.

pub mod bbox;
pub mod blocks;
pub mod chosen;
pub mod connected;
pub mod dict;
pub mod dilate;
pub mod effects;
pub mod estimate;
pub mod frames;
pub mod hier;
pub mod interval;
pub mod learned;
pub mod lgd;
pub mod lgd_write;
pub mod logo_file;
pub mod placed;
pub mod ranking;
pub mod refined;
pub mod regions;
pub mod scan;
pub mod score;
pub mod select;
pub mod shown;
pub mod touched;
