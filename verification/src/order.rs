//! Display order and decode order as two distinct types.
//!
//! - [`DisplayIdx`]: an index in display order, the order of `Trim` values and of
//!   the `frame_number` column of a `.dtvi` index.
//! - [`DecodeIdx`]: an index in decode order, the order of mp4 sample numbers and
//!   of the `sample_number` column of a `.dtvi` index.
//!
//! Mixing the two up raises no error at run time; it only cuts the file in the
//! wrong place. The types are therefore separate, and [`OrderMap`] is the only way
//! from one to the other. There is deliberately no `From<u32>`: a caller always
//! writes down which order a number belongs to.

use std::ops::{Add, Sub};
use vstd::prelude::*;

verus! {

/// An index in display order.
#[derive(Copy, Clone, PartialEq, Eq, PartialOrd, Ord, Debug, Hash, Structural)]
pub struct DisplayIdx(pub u32);

/// An index in decode order.
#[derive(Copy, Clone, PartialEq, Eq, PartialOrd, Ord, Debug, Hash, Structural)]
pub struct DecodeIdx(pub u32);

impl Sub for DisplayIdx {
    type Output = u32;

    /// The difference of two indices is a number of frames, not an index.
    fn sub(self, rhs: Self) -> (diff: u32) {
        self.0 - rhs.0
    }
}

impl vstd::std_specs::ops::SubSpecImpl for DisplayIdx {
    open spec fn obeys_sub_spec() -> bool {
        true
    }

    open spec fn sub_req(self, rhs: Self) -> bool {
        rhs.0 <= self.0
    }

    open spec fn sub_spec(self, rhs: Self) -> u32 {
        (self.0 - rhs.0) as u32
    }
}

impl Sub for DecodeIdx {
    type Output = u32;

    /// The difference of two indices is a number of samples, not an index.
    fn sub(self, rhs: Self) -> (diff: u32) {
        self.0 - rhs.0
    }
}

impl vstd::std_specs::ops::SubSpecImpl for DecodeIdx {
    open spec fn obeys_sub_spec() -> bool {
        true
    }

    open spec fn sub_req(self, rhs: Self) -> bool {
        rhs.0 <= self.0
    }

    open spec fn sub_spec(self, rhs: Self) -> u32 {
        (self.0 - rhs.0) as u32
    }
}

impl Add<u32> for DisplayIdx {
    type Output = DisplayIdx;

    fn add(self, rhs: u32) -> (sum: DisplayIdx) {
        DisplayIdx(self.0 + rhs)
    }
}

impl vstd::std_specs::ops::AddSpecImpl<u32> for DisplayIdx {
    open spec fn obeys_add_spec() -> bool {
        true
    }

    open spec fn add_req(self, rhs: u32) -> bool {
        self.0 + rhs <= u32::MAX
    }

    open spec fn add_spec(self, rhs: u32) -> DisplayIdx {
        DisplayIdx((self.0 + rhs) as u32)
    }
}

impl Add<u32> for DecodeIdx {
    type Output = DecodeIdx;

    fn add(self, rhs: u32) -> (sum: DecodeIdx) {
        DecodeIdx(self.0 + rhs)
    }
}

impl vstd::std_specs::ops::AddSpecImpl<u32> for DecodeIdx {
    open spec fn obeys_add_spec() -> bool {
        true
    }

    open spec fn add_req(self, rhs: u32) -> bool {
        self.0 + rhs <= u32::MAX
    }

    open spec fn add_spec(self, rhs: u32) -> DecodeIdx {
        DecodeIdx((self.0 + rhs) as u32)
    }
}

impl DisplayIdx {
    /// Addition that reports overflow as `None`.
    pub fn checked_add(self, rhs: u32) -> (r: Option<DisplayIdx>)
        ensures
            r == (if self.0 + rhs <= u32::MAX {
                Some(DisplayIdx((self.0 + rhs) as u32))
            } else {
                None
            }),
    {
        match self.0.checked_add(rhs) {
            Some(n) => Some(DisplayIdx(n)),
            None => None,
        }
    }
}

impl DecodeIdx {
    /// Addition that reports overflow as `None`.
    pub fn checked_add(self, rhs: u32) -> (r: Option<DecodeIdx>)
        ensures
            r == (if self.0 + rhs <= u32::MAX {
                Some(DecodeIdx((self.0 + rhs) as u32))
            } else {
                None
            }),
    {
        match self.0.checked_add(rhs) {
            Some(n) => Some(DecodeIdx(n)),
            None => None,
        }
    }
}

/// The correspondence between display order and decode order, as a list of
/// `(display, decode)` pairs. A lookup answers with the first pair that matches.
pub struct OrderMap {
    pairs: Vec<(DisplayIdx, DecodeIdx)>,
}

impl View for OrderMap {
    type V = Seq<(DisplayIdx, DecodeIdx)>;

    closed spec fn view(&self) -> Seq<(DisplayIdx, DecodeIdx)> {
        self.pairs@
    }
}

/// Position `k` holds the first pair of `pairs` with display index `i`.
pub open spec fn first_with_display(
    pairs: Seq<(DisplayIdx, DecodeIdx)>,
    i: DisplayIdx,
    k: int,
) -> bool {
    &&& 0 <= k < pairs.len()
    &&& pairs[k].0 == i
    &&& forall|j: int| 0 <= j < k ==> (#[trigger] pairs[j]).0 != i
}

/// Position `k` holds the first pair of `pairs` with decode index `i`.
pub open spec fn first_with_decode(
    pairs: Seq<(DisplayIdx, DecodeIdx)>,
    i: DecodeIdx,
    k: int,
) -> bool {
    &&& 0 <= k < pairs.len()
    &&& pairs[k].1 == i
    &&& forall|j: int| 0 <= j < k ==> (#[trigger] pairs[j]).1 != i
}

/// The decode index of the first pair of `pairs` with display index `i`.
pub open spec fn decode_of(pairs: Seq<(DisplayIdx, DecodeIdx)>, i: DisplayIdx) -> Option<
    DecodeIdx,
> {
    if exists|k: int| first_with_display(pairs, i, k) {
        Some(pairs[choose|k: int| first_with_display(pairs, i, k)].1)
    } else {
        None
    }
}

/// The display index of the first pair of `pairs` with decode index `i`.
pub open spec fn display_of(pairs: Seq<(DisplayIdx, DecodeIdx)>, i: DecodeIdx) -> Option<
    DisplayIdx,
> {
    if exists|k: int| first_with_decode(pairs, i, k) {
        Some(pairs[choose|k: int| first_with_decode(pairs, i, k)].0)
    } else {
        None
    }
}

/// No display index and no decode index occurs in two pairs.
pub open spec fn one_to_one(pairs: Seq<(DisplayIdx, DecodeIdx)>) -> bool {
    &&& forall|a: int, b: int|
        0 <= a < b < pairs.len() ==> (#[trigger] pairs[a]).0 != (#[trigger] pairs[b]).0
    &&& forall|a: int, b: int|
        0 <= a < b < pairs.len() ==> (#[trigger] pairs[a]).1 != (#[trigger] pairs[b]).1
}

impl OrderMap {
    /// Builds the map from its `(display, decode)` pairs.
    pub fn new(pairs: Vec<(DisplayIdx, DecodeIdx)>) -> (map: Self)
        ensures
            map@ == pairs@,
    {
        Self { pairs }
    }

    /// The decode index that belongs to a display index.
    pub fn to_decode(&self, i: DisplayIdx) -> (r: Option<DecodeIdx>)
        ensures
            r == decode_of(self@, i),
    {
        let mut k: usize = 0;
        while k < self.pairs.len()
            invariant
                0 <= k <= self.pairs.len(),
                forall|j: int| 0 <= j < k ==> (#[trigger] self.pairs@[j]).0 != i,
            decreases self.pairs.len() - k,
        {
            if self.pairs[k].0 == i {
                proof {
                    lemma_decode_of(self@, i, k as int);
                }
                return Some(self.pairs[k].1);
            }
            k += 1;
        }
        None
    }

    /// The display index that belongs to a decode index.
    pub fn to_display(&self, i: DecodeIdx) -> (r: Option<DisplayIdx>)
        ensures
            r == display_of(self@, i),
    {
        let mut k: usize = 0;
        while k < self.pairs.len()
            invariant
                0 <= k <= self.pairs.len(),
                forall|j: int| 0 <= j < k ==> (#[trigger] self.pairs@[j]).1 != i,
            decreases self.pairs.len() - k,
        {
            if self.pairs[k].1 == i {
                proof {
                    lemma_display_of(self@, i, k as int);
                }
                return Some(self.pairs[k].0);
            }
            k += 1;
        }
        None
    }

    /// The number of pairs.
    pub fn len(&self) -> (n: usize)
        ensures
            n == self@.len(),
    {
        self.pairs.len()
    }

    /// Whether there is no pair at all.
    pub fn is_empty(&self) -> (b: bool)
        ensures
            b == (self@.len() == 0),
    {
        self.pairs.len() == 0
    }
}

/// A lookup by display index answers with the first pair that matches.
pub proof fn lemma_decode_of(pairs: Seq<(DisplayIdx, DecodeIdx)>, i: DisplayIdx, k: int)
    requires
        first_with_display(pairs, i, k),
    ensures
        decode_of(pairs, i) == Some(pairs[k].1),
{
    let first = choose|first: int| first_with_display(pairs, i, first);
    assert(first_with_display(pairs, i, first));
    assert(first == k);
}

/// A lookup by decode index answers with the first pair that matches.
pub proof fn lemma_display_of(pairs: Seq<(DisplayIdx, DecodeIdx)>, i: DecodeIdx, k: int)
    requires
        first_with_decode(pairs, i, k),
    ensures
        display_of(pairs, i) == Some(pairs[k].0),
{
    let first = choose|first: int| first_with_decode(pairs, i, first);
    assert(first_with_decode(pairs, i, first));
    assert(first == k);
}

/// Display order to decode order and back: where no index occurs twice, the way back from
/// what `to_decode` answered leads to the index that it was asked for.
pub proof fn display_round_trip(pairs: Seq<(DisplayIdx, DecodeIdx)>, d: DisplayIdx)
    requires
        one_to_one(pairs),
        decode_of(pairs, d) is Some,
    ensures
        display_of(pairs, decode_of(pairs, d)->0) == Some(d),
{
    let k = choose|k: int| first_with_display(pairs, d, k);
    assert(first_with_decode(pairs, pairs[k].1, k));
    lemma_display_of(pairs, pairs[k].1, k);
}

/// Decode order to display order and back, likewise.
pub proof fn decode_round_trip(pairs: Seq<(DisplayIdx, DecodeIdx)>, s: DecodeIdx)
    requires
        one_to_one(pairs),
        display_of(pairs, s) is Some,
    ensures
        decode_of(pairs, display_of(pairs, s)->0) == Some(s),
{
    let k = choose|k: int| first_with_decode(pairs, s, k);
    assert(first_with_display(pairs, pairs[k].0, k));
    lemma_decode_of(pairs, pairs[k].0, k);
}

} // verus!
