//! The ranges of frames to keep.

use crate::order::DisplayIdx;
use vstd::prelude::*;

verus! {

/// A range of frames in display order: from `start` up to, but without, `end`.
#[derive(Debug, Clone, Copy, PartialEq, Eq, Structural)]
pub struct TrimRange {
    pub start: DisplayIdx,
    pub end: DisplayIdx,
}

impl TrimRange {
    /// The first frame of the range.
    pub fn start(&self) -> (i: DisplayIdx)
        ensures
            i == self.start,
    {
        self.start
    }

    /// The first frame after the range.
    pub fn end(&self) -> (i: DisplayIdx)
        ensures
            i == self.end,
    {
        self.end
    }
}

/// No range is empty, and each range starts where the one before it ends, or later.
pub open spec fn ranges_ascend(ranges: Seq<TrimRange>) -> bool {
    &&& forall|i: int|
        0 <= i < ranges.len() ==> (#[trigger] ranges[i]).start.0 < ranges[i].end.0
    &&& forall|i: int, j: int|
        0 <= i < j < ranges.len() ==> (#[trigger] ranges[i]).end.0 <= (
        #[trigger] ranges[j]).start.0
}

/// Ranges of frames in ascending order that do not overlap.
pub struct TrimList {
    ranges: Vec<TrimRange>,
}

impl View for TrimList {
    type V = Seq<TrimRange>;

    closed spec fn view(&self) -> Seq<TrimRange> {
        self.ranges@
    }
}

impl TrimList {
    #[verifier::type_invariant]
    spec fn inv(self) -> bool {
        ranges_ascend(self.ranges@)
    }

    /// The list of these ranges, where they ascend and do not overlap.
    pub fn new(ranges: Vec<TrimRange>) -> (r: Option<Self>)
        ensures
            match r {
                Some(list) => list@ == ranges@ && ranges_ascend(ranges@),
                None => !ranges_ascend(ranges@),
            },
    {
        let mut i: usize = 0;
        while i < ranges.len()
            invariant
                i <= ranges@.len(),
                forall|k: int|
                    0 <= k < i ==> (#[trigger] ranges@[k]).start.0 < ranges@[k].end.0,
                forall|j: int, k: int|
                    0 <= j < k < i ==> (#[trigger] ranges@[j]).end.0 <= (
                    #[trigger] ranges@[k]).start.0,
            decreases ranges@.len() - i,
        {
            if ranges[i].start.0 >= ranges[i].end.0 {
                return None;
            }
            if i > 0 && ranges[i - 1].end.0 > ranges[i].start.0 {
                assert(ranges@[i - 1].end.0 > ranges@[i as int].start.0);
                return None;
            }
            proof {
                assert forall|j: int| 0 <= j < i implies (#[trigger] ranges@[j]).end.0
                    <= ranges@[i as int].start.0 by {
                    if j < i - 1 {
                        assert(ranges@[j].end.0 <= ranges@[i - 1].start.0);
                    }
                }
            }
            i += 1;
        }
        Some(Self { ranges })
    }

    /// The ranges in ascending order.
    pub fn ranges(&self) -> (ranges: &Vec<TrimRange>)
        ensures
            ranges@ == self@,
            ranges_ascend(ranges@),
    {
        proof {
            use_type_invariant(self);
        }
        &self.ranges
    }
}

} // verus!
