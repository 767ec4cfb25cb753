//! The sections that the analysis of a recording found (`.jls`), as plain values.

use vstd::prelude::*;

verus! {

/// One section, from frame `start` to frame `end`, both included.
#[derive(Debug, Clone)]
pub struct JlsEntry {
    pub start: u32,
    pub end: u32,
    pub duration_sec: i64,
    /// By how many frames the length differs from a multiple of 15 seconds.
    pub error_frames: i64,
    pub logo_sec: i64,
    pub label: String,
}

impl JlsEntry {
    /// Whether the section is a commercial.
    pub open spec fn spec_is_cm(&self) -> bool {
        self.label@ == ":CM"@
    }

    /// Whether the section is a commercial.
    pub fn is_cm(&self) -> (b: bool)
        ensures
            b == self.spec_is_cm(),
    {
        self.label == ":CM".to_owned()
    }
}

} // verus!
