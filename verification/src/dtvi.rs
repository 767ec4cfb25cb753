//! The frame index of a video (`.dtvi`), as plain values.

use crate::order::{DecodeIdx, DisplayIdx};
use vstd::prelude::*;

verus! {

/// The packet holds a key frame.
pub const FLAG_KEY_PACKET: u32 = 1;

/// The presentation time is valid.
pub const FLAG_VALID_PTS: u32 = 2;

/// The decoding time is valid.
pub const FLAG_VALID_DTS: u32 = 4;

/// The sample is shown before the key frame that it follows in decode order.
pub const FLAG_LEADING_SAMPLE: u32 = 8;

/// Decoding has to start before the key frame in front of the sample.
pub const FLAG_REQUIRES_EARLIER_RAP: u32 = 16;

/// One frame of the index.
#[derive(Debug, Clone, Copy, PartialEq, Eq, Structural)]
pub struct DtviFrame {
    pub frame_number: DisplayIdx,
    pub sample_number: DecodeIdx,
    /// The sync sample from which decoding starts.
    pub random_access_sample: DecodeIdx,
    pub file_offset: u64,
    pub pts: i64,
    pub dts: i64,
    pub duration: i64,
    pub flags: u32,
}

impl DtviFrame {
    /// Whether any of the bits `flag` is set.
    pub open spec fn has_flag(self, flag: u32) -> bool {
        self.flags & flag != 0
    }

    /// Whether the packet holds a key frame.
    pub fn is_key_packet(&self) -> (b: bool)
        ensures
            b == self.has_flag(FLAG_KEY_PACKET),
    {
        self.flags & FLAG_KEY_PACKET != 0
    }

    /// Whether the sample is shown before the key frame that it follows.
    pub fn is_leading(&self) -> (b: bool)
        ensures
            b == self.has_flag(FLAG_LEADING_SAMPLE),
    {
        self.flags & FLAG_LEADING_SAMPLE != 0
    }

    /// Whether decoding has to start before the key frame in front of the sample.
    pub fn requires_earlier_rap(&self) -> (b: bool)
        ensures
            b == self.has_flag(FLAG_REQUIRES_EARLIER_RAP),
    {
        self.flags & FLAG_REQUIRES_EARLIER_RAP != 0
    }
}

/// A frame index: its header entries and its frames in display order.
#[derive(Debug, Clone)]
pub struct Dtvi {
    pub format_version: u32,
    pub header: Vec<(String, String)>,
    pub frames: Vec<DtviFrame>,
}

/// The value of the first header entry, from entry `i` on, with the name `key`.
pub open spec fn header_value_from(
    header: Seq<(String, String)>,
    key: Seq<char>,
    i: int,
) -> Option<Seq<char>>
    decreases header.len() - i,
{
    if i < 0 || i >= header.len() {
        None
    } else if header[i].0@ == key {
        Some(header[i].1@)
    } else {
        header_value_from(header, key, i + 1)
    }
}

impl Dtvi {
    /// The value of the header entry with the name `key`.
    pub fn header_value(&self, key: &str) -> (value: Option<&str>)
        ensures
            match value {
                Some(v) => header_value_from(self.header@, key@, 0) == Some(v@),
                None => header_value_from(self.header@, key@, 0) is None,
            },
    {
        let wanted: String = key.to_owned();
        let mut i: usize = 0;
        while i < self.header.len()
            invariant
                wanted@ == key@,
                i <= self.header@.len(),
                header_value_from(self.header@, key@, 0) == header_value_from(
                    self.header@,
                    key@,
                    i as int,
                ),
            decreases self.header@.len() - i,
        {
            if self.header[i].0 == wanted {
                return Some(self.header[i].1.as_str());
            }
            i += 1;
        }
        None
    }
}

} // verus!
