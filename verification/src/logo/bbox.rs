//! Bounding boxes of groups of pixels, and what a logo may measure.

use crate::logo::frames::LogoRect;
use vstd::prelude::*;

verus! {

/// The least width and height of a logo.
pub const MIN_SIDE: u32 = 8;

/// The least number of pixels of a logo that stand out.
pub const MIN_AREA: usize = 20;

/// A rectangle of pixels, with both ends.
#[derive(Debug, Clone, Copy, PartialEq, Eq, Structural)]
pub struct Bbox {
    pub x_min: u32,
    pub y_min: u32,
    pub x_max: u32,
    pub y_max: u32,
}

impl Bbox {
    /// The rectangle has pixels, and its sides can be measured.
    pub open spec fn well_formed(&self) -> bool {
        &&& self.x_min <= self.x_max
        &&& self.y_min <= self.y_max
        &&& self.x_max - self.x_min < u32::MAX
        &&& self.y_max - self.y_min < u32::MAX
    }

    /// The number of columns.
    pub open spec fn spec_width(&self) -> int {
        self.x_max - self.x_min + 1
    }

    /// The number of rows.
    pub open spec fn spec_height(&self) -> int {
        self.y_max - self.y_min + 1
    }

    /// The smallest rectangle that covers both.
    pub open spec fn spec_union(&self, other: &Bbox) -> Bbox {
        Bbox {
            x_min: if self.x_min <= other.x_min {
                self.x_min
            } else {
                other.x_min
            },
            y_min: if self.y_min <= other.y_min {
                self.y_min
            } else {
                other.y_min
            },
            x_max: if self.x_max >= other.x_max {
                self.x_max
            } else {
                other.x_max
            },
            y_max: if self.y_max >= other.y_max {
                self.y_max
            } else {
                other.y_max
            },
        }
    }

    /// The pixel in column `x` and row `y` is in the rectangle.
    pub open spec fn covers(&self, x: int, y: int) -> bool {
        &&& self.x_min <= x <= self.x_max
        &&& self.y_min <= y <= self.y_max
    }

    /// The number of columns.
    pub fn width(&self) -> (n: u32)
        requires
            self.well_formed(),
        ensures
            n == self.spec_width(),
    {
        self.x_max - self.x_min + 1
    }

    /// The number of rows.
    pub fn height(&self) -> (n: u32)
        requires
            self.well_formed(),
        ensures
            n == self.spec_height(),
    {
        self.y_max - self.y_min + 1
    }

    /// The smallest rectangle that covers both.
    pub fn union(&self, other: &Bbox) -> (b: Bbox)
        ensures
            b == self.spec_union(other),
    {
        Bbox {
            x_min: if self.x_min <= other.x_min {
                self.x_min
            } else {
                other.x_min
            },
            y_min: if self.y_min <= other.y_min {
                self.y_min
            } else {
                other.y_min
            },
            x_max: if self.x_max >= other.x_max {
                self.x_max
            } else {
                other.x_max
            },
            y_max: if self.y_max >= other.y_max {
                self.y_max
            } else {
                other.y_max
            },
        }
    }
}

/// The same rectangle, given by its corners.
pub open spec fn spec_bbox_from_rect(rect: LogoRect) -> Bbox {
    Bbox {
        x_min: rect.x,
        y_min: rect.y,
        x_max: (rect.x + rect.w - 1) as u32,
        y_max: (rect.y + rect.h - 1) as u32,
    }
}

/// The same rectangle, given by its corners.
pub fn bbox_from_rect(rect: LogoRect) -> (b: Bbox)
    requires
        1 <= rect.x + rect.w <= u32::MAX,
        1 <= rect.y + rect.h <= u32::MAX,
    ensures
        b == spec_bbox_from_rect(rect),
{
    Bbox {
        x_min: rect.x,
        y_min: rect.y,
        x_max: rect.x + rect.w - 1,
        y_max: rect.y + rect.h - 1,
    }
}

/// The rectangle of the single pixel `i` of a picture `w` wide.
pub open spec fn pixel_box(w: int, i: int) -> Bbox {
    Bbox {
        x_min: (i % w) as u32,
        y_min: (i / w) as u32,
        x_max: (i % w) as u32,
        y_max: (i / w) as u32,
    }
}

/// The smallest rectangle that covers the given pixels, of which there is at least one.
pub open spec fn bounds(w: int, pixels: Seq<usize>) -> Bbox
    decreases pixels.len(),
{
    if pixels.len() <= 1 {
        pixel_box(w, pixels[0] as int)
    } else {
        bounds(w, pixels.drop_last()).spec_union(&pixel_box(w, pixels.last() as int))
    }
}

/// Columns and rows of pixels are numbers of 32 bits.
pub open spec fn has_coordinates(w: int, pixels: Seq<usize>) -> bool {
    &&& w > 0
    &&& forall|k: int|
        0 <= k < pixels.len() ==> #[trigger] pixels[k] as int / w < u32::MAX && pixels[k] as int % w
            < u32::MAX
}

/// The smallest rectangle that covers the given pixels, of which there must be one.
pub fn bbox_of(w: usize, pixels: &Vec<usize>) -> (b: Bbox)
    requires
        pixels@.len() > 0,
        has_coordinates(w as int, pixels@),
    ensures
        b == bounds(w as int, pixels@),
        b.well_formed(),
{
    let first: usize = pixels[0];
    let mut b = Bbox {
        x_min: (first % w) as u32,
        y_min: (first / w) as u32,
        x_max: (first % w) as u32,
        y_max: (first / w) as u32,
    };
    let mut k: usize = 1;
    assert(pixels@.take(1)[0] == first);
    while k < pixels.len()
        invariant
            has_coordinates(w as int, pixels@),
            1 <= k <= pixels@.len(),
            b == bounds(w as int, pixels@.take(k as int)),
            b.x_min <= b.x_max < u32::MAX,
            b.y_min <= b.y_max < u32::MAX,
        decreases pixels@.len() - k,
    {
        let i: usize = pixels[k];
        let x: u32 = (i % w) as u32;
        let y: u32 = (i / w) as u32;
        proof {
            let longer = pixels@.take(k + 1);
            assert(longer.drop_last() =~= pixels@.take(k as int));
            assert(longer.last() == i);
        }
        b = b.union(&Bbox { x_min: x, y_min: y, x_max: x, y_max: y });
        k += 1;
    }
    assert(pixels@.take(k as int) =~= pixels@);
    b
}

/// A pixel list has a pixel in column `x`.
pub open spec fn has_column(w: int, pixels: Seq<usize>, x: u32) -> bool {
    exists|k: int| 0 <= k < pixels.len() && #[trigger] pixels[k] as int % w == x
}

/// A pixel list has a pixel in row `y`.
pub open spec fn has_row(w: int, pixels: Seq<usize>, y: u32) -> bool {
    exists|k: int| 0 <= k < pixels.len() && #[trigger] pixels[k] as int / w == y
}

/// The bounding box covers all pixels, and each of its sides touches one: it is the smallest
/// rectangle that covers them.
pub proof fn bounds_are_tight(w: int, pixels: Seq<usize>)
    requires
        pixels.len() > 0,
        has_coordinates(w, pixels),
    ensures
        forall|k: int|
            0 <= k < pixels.len() ==> bounds(w, pixels).covers(
                #[trigger] pixels[k] as int % w,
                pixels[k] as int / w,
            ),
        has_column(w, pixels, bounds(w, pixels).x_min),
        has_column(w, pixels, bounds(w, pixels).x_max),
        has_row(w, pixels, bounds(w, pixels).y_min),
        has_row(w, pixels, bounds(w, pixels).y_max),
    decreases pixels.len(),
{
    let n = pixels.len() - 1;
    assert forall|k: int| 0 <= k < pixels.len() implies 0 <= #[trigger] pixels[k] as int % w && 0
        <= pixels[k] as int / w by {
        vstd::arithmetic::div_mod::lemma_mod_bound(pixels[k] as int, w);
        vstd::arithmetic::div_mod::lemma_div_pos_is_pos(pixels[k] as int, w);
    }
    if pixels.len() > 1 {
        let fewer = pixels.drop_last();
        assert forall|k: int| 0 <= k < fewer.len() implies #[trigger] fewer[k] as int / w < u32::MAX
            && fewer[k] as int % w < u32::MAX by {
            assert(fewer[k] == pixels[k]);
        }
        bounds_are_tight(w, fewer);
        let b = bounds(w, fewer);
        assert forall|x: u32| has_column(w, fewer, x) implies #[trigger] has_column(w, pixels, x) by {
            let k = choose|k: int| 0 <= k < fewer.len() && #[trigger] fewer[k] as int % w == x;
            assert(pixels[k] as int % w == x);
        }
        assert forall|y: u32| has_row(w, fewer, y) implies #[trigger] has_row(w, pixels, y) by {
            let k = choose|k: int| 0 <= k < fewer.len() && #[trigger] fewer[k] as int / w == y;
            assert(pixels[k] as int / w == y);
        }
        assert forall|k: int| 0 <= k < pixels.len() implies bounds(w, pixels).covers(
            #[trigger] pixels[k] as int % w,
            pixels[k] as int / w,
        ) by {
            if k < n {
                assert(fewer[k] == pixels[k]);
                assert(b.covers(fewer[k] as int % w, fewer[k] as int / w));
            }
        }
        assert(has_column(w, pixels, (pixels[n] as int % w) as u32));
        assert(has_row(w, pixels, (pixels[n] as int / w) as u32));
    } else {
        assert(has_column(w, pixels, (pixels[0] as int % w) as u32));
        assert(has_row(w, pixels, (pixels[0] as int / w) as u32));
    }
}

/// A rectangle is at most a fifth of the picture wide and three twentieths of it high.
pub open spec fn is_within_upper_bound(b: Bbox, video_w: u32, video_h: u32) -> bool {
    &&& 5 * b.spec_width() <= video_w
    &&& 20 * b.spec_height() <= 3 * video_h
}

/// A rectangle is at most as large as a logo may be.
pub fn passes_upper_bound(b: Bbox, video_w: u32, video_h: u32) -> (r: bool)
    requires
        b.well_formed(),
    ensures
        r == is_within_upper_bound(b, video_w, video_h),
{
    5 * b.width() as u64 <= video_w as u64 && 20 * b.height() as u64 <= 3 * video_h as u64
}

/// A rectangle with so many pixels that stand out is as large as a logo must be.
pub open spec fn is_above_lower_bound(b: Bbox, significant_pixels: int) -> bool {
    &&& b.spec_width() >= MIN_SIDE
    &&& b.spec_height() >= MIN_SIDE
    &&& significant_pixels >= MIN_AREA
}

/// A rectangle with so many pixels that stand out is as large as a logo must be.
pub fn passes_lower_bound(b: Bbox, significant_pixels: usize) -> (r: bool)
    requires
        b.well_formed(),
    ensures
        r == is_above_lower_bound(b, significant_pixels as int),
{
    b.width() >= MIN_SIDE && b.height() >= MIN_SIDE && significant_pixels >= MIN_AREA
}

/// A rectangle can be that of a logo.
pub fn passes_size_bounds(b: Bbox, significant_pixels: usize, video_w: u32, video_h: u32) -> (r:
    bool)
    requires
        b.well_formed(),
    ensures
        r == (is_within_upper_bound(b, video_w, video_h) && is_above_lower_bound(
            b,
            significant_pixels as int,
        )),
{
    passes_upper_bound(b, video_w, video_h) && passes_lower_bound(b, significant_pixels)
}

/// The number of whole numbers between two ranges, 0 where they meet.
pub open spec fn gap_between(a_min: int, a_max: int, b_min: int, b_max: int) -> int {
    if b_min > a_max {
        b_min - a_max - 1
    } else if a_min > b_max {
        a_min - b_max - 1
    } else {
        0
    }
}

/// The number of pixels between two ranges, 0 where they meet.
pub fn gap_1d(a_min: u32, a_max: u32, b_min: u32, b_max: u32) -> (gap: u32)
    ensures
        gap == gap_between(a_min as int, a_max as int, b_min as int, b_max as int),
{
    if b_min > a_max {
        b_min - a_max - 1
    } else if a_min > b_max {
        a_min - b_max - 1
    } else {
        0
    }
}

/// At most `max_gap` columns and at most `max_gap` rows lie between two rectangles.
pub open spec fn are_close(a: Bbox, b: Bbox, max_gap: u32) -> bool {
    &&& gap_between(a.x_min as int, a.x_max as int, b.x_min as int, b.x_max as int) <= max_gap
    &&& gap_between(a.y_min as int, a.y_max as int, b.y_min as int, b.y_max as int) <= max_gap
}

/// At most `max_gap` columns and at most `max_gap` rows lie between two rectangles.
pub fn close_enough(a: Bbox, b: Bbox, max_gap: u32) -> (r: bool)
    ensures
        r == are_close(a, b, max_gap),
{
    gap_1d(a.x_min, a.x_max, b.x_min, b.x_max) <= max_gap && gap_1d(
        a.y_min,
        a.y_max,
        b.y_min,
        b.y_max,
    ) <= max_gap
}

/// `v` to the nearest multiple of `unit`; what is in the middle goes up.
pub open spec fn nearest_multiple(v: int, unit: int) -> int {
    if unit == 0 {
        0
    } else {
        (2 * v + unit) / (2 * unit) * unit
    }
}

/// `v` to the nearest multiple of `unit`; what is in the middle goes up.
pub fn round_to(v: u32, unit: u32) -> (r: u32)
    requires
        nearest_multiple(v as int, unit as int) <= u32::MAX,
    ensures
        r == nearest_multiple(v as int, unit as int),
{
    if unit == 0 {
        return 0;
    }
    let units: u64 = (2 * v as u64 + unit as u64) / (2 * unit as u64);
    proof {
        vstd::arithmetic::div_mod::lemma_div_pos_is_pos(2 * v + unit, 2 * unit as int);
        assert(0 <= units * unit) by (nonlinear_arith)
            requires
                units >= 0,
                unit >= 0,
        ;
    }
    (units * unit as u64) as u32
}

} // verus!
