//! Learning a logo from the frames of a video.
//!
//! A frame counts where the outermost pixels of the logo's rectangle have about one
//! brightness. The background of such a frame is the average of the middle half of those
//! pixels, sorted. What a logo does to the background at each pixel follows from such frames
//! by regression, which is not done here. The result is written as a logo data file, see
//! [`crate::logo::lgd`].

use crate::bytes;
use crate::logo::frames::{LogoRect, VideoSize};
use crate::logo::lgd;
use crate::logo::lgd::LogoData;
use crate::logo::lgd_write;
use crate::sort;
use crate::sums;
use crate::text;
use vstd::prelude::*;

verus! {

/// How far the outermost pixels of a frame may differ, unless told otherwise.
pub const DEFAULT_THRESHOLD: u8 = 12;

/// The service id of a logo that is bound to no service.
pub const UNSPECIFIED_SERVICE_ID: i32 = -1;

/// The number of frames below which nothing is learned.
pub const MIN_USABLE_FRAMES: u64 = 4;

/// Chroma planes have half the width and half the height.
pub const LOG_UV: i32 = 1;

/// The bits of the number 1 as a 32-bit floating-point number.
pub const ONE_BITS: u32 = 0x3f80_0000;

/// A rectangle whose numbers are even, each at most one smaller.
pub open spec fn even_rect(rect: LogoRect) -> LogoRect {
    LogoRect {
        x: (rect.x - rect.x % 2) as u32,
        y: (rect.y - rect.y % 2) as u32,
        w: (rect.w - rect.w % 2) as u32,
        h: (rect.h - rect.h % 2) as u32,
    }
}

/// The numbers of a rectangle, as text.
pub open spec fn rect_text(rect: LogoRect) -> Seq<char> {
    "(x="@ + text::decimal(rect.x as nat) + ", y="@ + text::decimal(rect.y as nat) + ", w="@
        + text::decimal(rect.w as nat) + ", h="@ + text::decimal(rect.h as nat) + ")"@
}

fn push_rect(m: &mut String, rect: LogoRect)
    ensures
        final(m)@ == old(m)@ + rect_text(rect),
{
    let ghost before = m@;
    m.append("(x=");
    text::push_u64(m, rect.x as u64);
    m.append(", y=");
    text::push_u64(m, rect.y as u64);
    m.append(", w=");
    text::push_u64(m, rect.w as u64);
    m.append(", h=");
    text::push_u64(m, rect.h as u64);
    m.append(")");
    assert(m@ =~= before + rect_text(rect));
}

/// Rounds a rectangle down to even numbers, as the chroma planes need it. The message for the
/// user is there only where that changes something.
pub fn round_rect_to_even(rect: LogoRect) -> (r: (LogoRect, Option<String>))
    ensures
        r.0 == even_rect(rect),
        match r.1 {
            Some(m) => {
                &&& r.0 != rect
                &&& m@ == "矩形を2の倍数に丸めました: "@ + rect_text(rect) + " -> "@ + rect_text(r.0)
            },
            None => r.0 == rect,
        },
{
    let rounded = LogoRect {
        x: rect.x - rect.x % 2,
        y: rect.y - rect.y % 2,
        w: rect.w - rect.w % 2,
        h: rect.h - rect.h % 2,
    };
    if rounded == rect {
        return (rounded, None);
    }
    let mut m = String::new();
    m.append("矩形を2の倍数に丸めました: ");
    push_rect(&mut m, rect);
    m.append(" -> ");
    push_rect(&mut m, rounded);
    assert(m@ =~= "矩形を2の倍数に丸めました: "@ + rect_text(rect) + " -> "@ + rect_text(rounded));
    (rounded, Some(m))
}

/// Rounding makes all numbers even, and leaves the rectangle within the rectangle that it was.
pub proof fn rounded_rect_is_even(rect: LogoRect, width: u32, height: u32)
    ensures
        even_rect(rect).x % 2 == 0,
        even_rect(rect).y % 2 == 0,
        even_rect(rect).w % 2 == 0,
        even_rect(rect).h % 2 == 0,
        even_rect(even_rect(rect)) == even_rect(rect),
        rect.fits_in(width, height) ==> even_rect(rect).fits_in(width, height),
{
}

/// The positions `lo..hi`.
pub open spec fn positions(lo: int, hi: int) -> Seq<usize> {
    Seq::new(
        if lo <= hi {
            (hi - lo) as nat
        } else {
            0
        },
        |i: int| (lo + i) as usize,
    )
}

/// The leftmost and rightmost pixels of the rows `1..rows`, of a picture `w` wide.
pub open spec fn side_pixels(w: int, rows: int) -> Seq<usize>
    decreases rows,
{
    if rows <= 1 {
        Seq::empty()
    } else {
        let left = (rows - 1) * w;
        side_pixels(w, rows - 1) + (if w > 1 {
            seq![left as usize, (left + w - 1) as usize]
        } else {
            seq![left as usize]
        })
    }
}

/// The outermost pixels of a picture of `w` by `h` pixels: the first row, the last row, and
/// what is left of the first and the last column.
pub open spec fn border(w: int, h: int) -> Seq<usize> {
    if w <= 0 || h <= 0 {
        Seq::empty()
    } else if h == 1 {
        positions(0, w)
    } else {
        positions(0, w) + positions((h - 1) * w, h * w) + side_pixels(w, h - 1)
    }
}

/// Pixel `i` of a picture of `w` by `h` pixels is in the first or last row or column.
pub open spec fn is_outermost(i: int, w: int, h: int) -> bool {
    &&& 0 <= i < w * h
    &&& i / w == 0 || i / w == h - 1 || i % w == 0 || i % w == w - 1
}

fn push_positions(out: &mut Vec<usize>, lo: usize, hi: usize)
    requires
        lo <= hi,
    ensures
        final(out)@ == old(out)@ + positions(lo as int, hi as int),
{
    let ghost before = out@;
    let mut i: usize = lo;
    assert(out@ =~= before + positions(lo as int, lo as int));
    while i < hi
        invariant
            lo <= i <= hi,
            out@ == before + positions(lo as int, i as int),
        decreases hi - i,
    {
        out.push(i);
        i += 1;
        assert(out@ =~= before + positions(lo as int, i as int));
    }
}

/// The outermost pixels of a picture of `w` by `h` pixels.
pub fn border_pixel_indices(w: usize, h: usize) -> (idx: Vec<usize>)
    requires
        w * h <= usize::MAX,
    ensures
        idx@ == border(w as int, h as int),
{
    let mut idx: Vec<usize> = Vec::new();
    if w == 0 || h == 0 {
        assert(idx@ =~= border(w as int, h as int));
        return idx;
    }
    push_positions(&mut idx, 0, w);
    assert(idx@ =~= positions(0, w as int));
    if h == 1 {
        return idx;
    }
    assert((h - 1) * w + w == h * w && h * w == w * h && 0 <= (h - 1) * w) by (nonlinear_arith)
        requires
            h >= 1,
            w >= 0,
    ;
    push_positions(&mut idx, (h - 1) * w, h * w);
    let ghost rows = idx@;
    let mut y: usize = 1;
    assert(idx@ =~= rows + side_pixels(w as int, 1));
    while y < h - 1
        invariant
            w > 0,
            1 <= y <= h - 1,
            h * w <= usize::MAX,
            idx@ == rows + side_pixels(w as int, y as int),
        decreases h - 1 - y,
    {
        assert(y * w + w <= h * w && 0 <= y * w) by (nonlinear_arith)
            requires
                0 <= y,
                y + 1 <= h,
                w >= 0,
        ;
        idx.push(y * w);
        if w > 1 {
            idx.push(y * w + (w - 1));
        }
        y += 1;
        assert(idx@ =~= rows + side_pixels(w as int, y as int));
    }
    idx
}

proof fn lemma_row_and_column(y: int, x: int, w: int)
    requires
        0 <= x < w,
    ensures
        (y * w + x) / w == y,
        (y * w + x) % w == x,
{
    vstd::arithmetic::div_mod::lemma_fundamental_div_mod_converse(y * w + x, w, y, x);
}

/// Row and column of a pixel lie within the picture, and give the pixel.
proof fn lemma_pixel_in_row(i: int, w: int, h: int)
    requires
        0 <= i < w * h,
        w > 0,
    ensures
        0 <= i / w < h,
        0 <= i % w < w,
        i == (i / w) * w + i % w,
{
    vstd::arithmetic::div_mod::lemma_fundamental_div_mod(i, w);
    vstd::arithmetic::div_mod::lemma_mod_bound(i, w);
    let y = i / w;
    let x = i % w;
    assert(0 <= y < h && i == y * w + x) by (nonlinear_arith)
        requires
            0 <= i < w * h,
            i == w * y + x,
            0 <= x < w,
    ;
}

proof fn lemma_side_pixels(w: int, rows: int, h: int, k: int)
    requires
        0 < w,
        w * h <= usize::MAX,
        0 <= rows < h,
        0 <= k < side_pixels(w, rows).len(),
    ensures
        0 <= side_pixels(w, rows)[k] < w * h,
        1 <= side_pixels(w, rows)[k] as int / w < rows,
        side_pixels(w, rows)[k] as int % w == 0 || side_pixels(w, rows)[k] as int % w == w - 1,
    decreases rows,
{
    let before = side_pixels(w, rows - 1);
    let left = (rows - 1) * w;
    assert(0 <= left && left + w <= w * h) by (nonlinear_arith)
        requires
            left == (rows - 1) * w,
            rows >= 1,
            rows <= h,
            w > 0,
    ;
    lemma_row_and_column(rows - 1, 0, w);
    lemma_row_and_column(rows - 1, w - 1, w);
    if k < before.len() {
        lemma_side_pixels(w, rows - 1, h, k);
        assert(side_pixels(w, rows)[k] == before[k]);
    }
}

proof fn lemma_side_pixels_ascend(w: int, rows: int, h: int, j: int, k: int)
    requires
        0 < w,
        w * h <= usize::MAX,
        0 <= rows < h,
        0 <= j < k < side_pixels(w, rows).len(),
    ensures
        side_pixels(w, rows)[j] < side_pixels(w, rows)[k],
    decreases rows,
{
    let before = side_pixels(w, rows - 1);
    let left = (rows - 1) * w;
    assert(0 <= left && left + w <= w * h) by (nonlinear_arith)
        requires
            left == (rows - 1) * w,
            rows >= 1,
            rows <= h,
            w > 0,
    ;
    if k < before.len() {
        lemma_side_pixels_ascend(w, rows - 1, h, j, k);
    } else if j < before.len() {
        lemma_side_pixels(w, rows - 1, h, j);
        let i = before[j] as int;
        lemma_pixel_in_row(i, w, h);
        assert(i < left) by (nonlinear_arith)
            requires
                i == (i / w) * w + i % w,
                i / w < rows - 1,
                i % w < w,
                left == (rows - 1) * w,
                w > 0,
        ;
    }
}

proof fn lemma_side_pixels_complete(w: int, rows: int, h: int, i: int)
    requires
        0 < w,
        w * h <= usize::MAX,
        0 <= rows < h,
        1 <= i / w < rows,
        i % w == 0 || i % w == w - 1,
        0 <= i < w * h,
    ensures
        exists|k: int| 0 <= k < side_pixels(w, rows).len() && #[trigger] side_pixels(w, rows)[k] == i,
    decreases rows,
{
    let before = side_pixels(w, rows - 1);
    let all = side_pixels(w, rows);
    let left = (rows - 1) * w;
    lemma_pixel_in_row(i, w, h);
    if i / w < rows - 1 {
        lemma_side_pixels_complete(w, rows - 1, h, i);
        let k = choose|k: int| 0 <= k < before.len() && #[trigger] before[k] == i;
        assert(all[k] == i);
    } else {
        assert(i / w == rows - 1);
        assert(i == left + i % w);
        if i % w == 0 {
            assert(all[before.len() as int] == i);
        } else {
            assert(all[before.len() as int + 1] == i);
        }
    }
}

/// The border holds each pixel of the first and last row and column exactly once, and no other.
pub proof fn border_is_the_outermost_pixels(w: int, h: int)
    requires
        0 <= w,
        0 <= h,
        w * h <= usize::MAX,
    ensures
        border(w, h).no_duplicates(),
        forall|i: usize| #[trigger] border(w, h).contains(i) <==> w > 0 && is_outermost(
            i as int,
            w,
            h,
        ),
{
    if w > 0 && h > 0 {
        let all = border(w, h);
        let last = (h - 1) * w;
        assert(last + w == h * w && h * w == w * h && 0 <= last && w <= w * h)
            by (nonlinear_arith)
            requires
                last == (h - 1) * w,
                h >= 1,
                w >= 1,
        ;
        assert(h >= 2 ==> w <= last) by (nonlinear_arith)
            requires
                last == (h - 1) * w,
                w >= 1,
        ;
        assert forall|k: int| 0 <= k < all.len() implies is_outermost(
            #[trigger] all[k] as int,
            w,
            h,
        ) by {
            lemma_border_pixel(w, h, k);
        }
        assert forall|i: usize| is_outermost(i as int, w, h) implies #[trigger] all.contains(i) by {
            lemma_border_complete(w, h, i);
        }
        assert forall|j: int, k: int| 0 <= j < k < all.len() implies all[j] != all[k] by {
            let rows = if h == 1 {
                w
            } else {
                2 * w
            };
            if k < rows {
            } else if j >= rows {
                lemma_side_pixels_ascend(w, h - 1, h, j - rows, k - rows);
            } else {
                lemma_side_pixels(w, h - 1, h, k - rows);
                let x = if j < w {
                    j
                } else {
                    j - w
                };
                lemma_row_and_column(0, x, w);
                lemma_row_and_column(h - 1, x, w);
            }
        }
    }
}

proof fn lemma_border_pixel(w: int, h: int, k: int)
    requires
        0 < w,
        0 < h,
        w * h <= usize::MAX,
        0 <= k < border(w, h).len(),
    ensures
        is_outermost(border(w, h)[k] as int, w, h),
{
    let last = (h - 1) * w;
    assert(last + w == h * w && h * w == w * h && 0 <= last && w <= w * h) by (nonlinear_arith)
        requires
            last == (h - 1) * w,
            h >= 1,
            w >= 1,
    ;
    if k < w {
        lemma_row_and_column(0, k, w);
    } else if k < 2 * w {
        lemma_row_and_column(h - 1, k - w, w);
    } else {
        lemma_side_pixels(w, h - 1, h, k - 2 * w);
    }
}

proof fn lemma_border_complete(w: int, h: int, i: usize)
    requires
        0 < w,
        0 < h,
        w * h <= usize::MAX,
        is_outermost(i as int, w, h),
    ensures
        border(w, h).contains(i),
{
    let all = border(w, h);
    let last = (h - 1) * w;
    assert(last + w == h * w && h * w == w * h && 0 <= last) by (nonlinear_arith)
        requires
            last == (h - 1) * w,
            h >= 1,
            w >= 1,
    ;
    lemma_pixel_in_row(i as int, w, h);
    if i as int / w == 0 {
        assert((i as int / w) * w == 0) by (nonlinear_arith)
            requires
                i as int / w == 0,
        ;
        assert(all[i as int] == i);
    } else if i as int / w == h - 1 {
        assert(i == last + i as int % w);
        assert(all[w + i as int % w] == i);
    } else {
        lemma_side_pixels_complete(w, h - 1, h, i as int);
        let sides = side_pixels(w, h - 1);
        let k = choose|k: int| 0 <= k < sides.len() && #[trigger] sides[k] == i;
        assert(all[2 * w + k] == i);
    }
}

/// The values of a frame at the given positions.
pub open spec fn values_at(frame: Seq<u8>, at: Seq<usize>) -> Seq<u32> {
    Seq::new(at.len(), |i: int| frame[at[i] as int] as u32)
}

/// No two of `values` differ by more than `threshold`.
pub open spec fn within(values: Seq<u32>, threshold: u8) -> bool {
    forall|i: int, j: int|
        0 <= i < values.len() && 0 <= j < values.len() ==> #[trigger] values[i]
            <= #[trigger] values[j] + threshold
}

/// `values` in ascending order.
pub open spec fn ascending(values: Seq<u32>) -> Seq<u32> {
    values.sort_by(|a: u32, b: u32| a <= b)
}

/// `values` in ascending order, without the first and the last quarter.
pub open spec fn middle_half(values: Seq<u32>) -> Seq<u32> {
    let quarter = (values.len() / 4) as int;
    ascending(values).subrange(quarter, values.len() - quarter)
}

/// The brightness of a background, as the sum of so many values.
#[derive(Debug, Clone, Copy, PartialEq, Eq, Structural)]
pub struct Background {
    pub sum: u64,
    pub count: usize,
}

/// What the pixels at `at` say of a frame: nothing where there are none or where they differ by
/// more than the threshold, otherwise the middle half of them as the background.
pub open spec fn background_of(frame: Seq<u8>, at: Seq<usize>, threshold: u8) -> Option<
    Background,
> {
    let values = values_at(frame, at);
    if values.len() == 0 || !within(values, threshold) {
        None
    } else {
        let middle = middle_half(values);
        Some(Background { sum: sums::sum(middle) as u64, count: middle.len() as usize })
    }
}

proof fn lemma_sorted_values(values: Seq<u32>, keys: Seq<i128>, order: Seq<usize>, sorted: Seq<u32>)
    requires
        sort::is_stable_order(keys, order),
        keys.len() == values.len(),
        forall|i: int| 0 <= i < keys.len() ==> #[trigger] keys[i] == values[i],
        sorted.len() == values.len(),
        forall|i: int| 0 <= i < sorted.len() ==> #[trigger] sorted[i] == values[order[i] as int],
    ensures
        sorted == ascending(values),
        ascending(values).len() == values.len(),
{
    let leq = |a: u32, b: u32| a <= b;
    sort::lemma_sorted_is_permutation(keys, order, values, sorted);
    values.lemma_sort_by_ensures(leq);
    assert(vstd::relations::sorted_by(sorted, leq)) by {
        assert forall|i: int, j: int| 0 <= i < j < sorted.len() implies leq(
            #[trigger] sorted[i],
            #[trigger] sorted[j],
        ) by {
            assert(sort::stably_before(keys, order[i] as int, order[j] as int));
        }
    }
    vstd::seq_lib::lemma_sorted_unique(sorted, ascending(values), leq);
}

/// The background of a frame, by its pixels at `border`.
pub fn estimate_frame_background(frame: &[u8], border: &Vec<usize>, threshold: u8) -> (r: Option<
    Background,
>)
    requires
        forall|i: int| 0 <= i < border@.len() ==> #[trigger] border@[i] < frame@.len(),
        255 * border@.len() <= u64::MAX,
    ensures
        r == background_of(frame@, border@, threshold),
{
    let ghost values = values_at(frame@, border@);
    let n: usize = border.len();
    if n == 0 {
        return None;
    }
    let mut keys: Vec<i128> = Vec::new();
    let mut least: u8 = frame[border[0]];
    let mut greatest: u8 = frame[border[0]];
    let ghost mut least_at: int = 0;
    let ghost mut greatest_at: int = 0;
    let mut i: usize = 0;
    while i < n
        invariant
            forall|i: int| 0 <= i < border@.len() ==> #[trigger] border@[i] < frame@.len(),
            values == values_at(frame@, border@),
            0 < n == border@.len(),
            i <= n,
            keys@.len() == i,
            forall|k: int| 0 <= k < i ==> #[trigger] keys@[k] == values[k],
            forall|k: int| 0 <= k < i ==> least <= #[trigger] values[k] <= greatest,
            0 <= least_at < n,
            0 <= greatest_at < n,
            least == values[least_at],
            greatest == values[greatest_at],
        decreases n - i,
    {
        let v: u8 = frame[border[i]];
        if v < least {
            least = v;
            proof {
                least_at = i as int;
            }
        }
        if v > greatest {
            greatest = v;
            proof {
                greatest_at = i as int;
            }
        }
        keys.push(v as i128);
        i += 1;
    }
    proof {
        assert(within(values, threshold) <==> greatest - least <= threshold) by {
            if greatest - least <= threshold {
                assert forall|i: int, j: int|
                    0 <= i < values.len() && 0 <= j < values.len() implies #[trigger] values[i]
                    <= #[trigger] values[j] + threshold by {}
            } else {
                assert(values[greatest_at] > values[least_at] + threshold);
            }
        }
        if n > 0 {
            assert(least <= values[0] <= greatest);
        }
    }
    if greatest - least > threshold {
        return None;
    }
    let order: Vec<usize> = sort::stable_order(&keys);
    let ghost sorted = Seq::new(values.len(), |k: int| values[order@[k] as int]);
    proof {
        lemma_sorted_values(values, keys@, order@, sorted);
    }
    let quarter: usize = n / 4;
    let ghost middle = middle_half(values);
    let mut sum: u64 = 0;
    let mut k: usize = quarter;
    while k < n - quarter
        invariant
            sort::is_stable_order(keys@, order@),
            keys@.len() == n,
            values.len() == n,
            255 * n <= u64::MAX,
            quarter == n / 4,
            quarter <= k <= n - quarter,
            forall|i: int| 0 <= i < n ==> #[trigger] keys@[i] == values[i] <= 255,
            sorted.len() == n,
            forall|i: int| 0 <= i < n ==> #[trigger] sorted[i] == values[order@[i] as int],
            middle == sorted.subrange(quarter as int, n - quarter),
            sum == sums::sum_to(middle, k - quarter),
            sum <= 255 * (k - quarter),
        decreases n - quarter - k,
    {
        let at: usize = order[k];
        assert(at < n);
        assert(keys@[at as int] == values[at as int]);
        assert(middle[k - quarter] == sorted[k as int]);
        assert(sum <= 255 * n);
        sum = sum + keys[at] as u64;
        k += 1;
    }
    Some(Background { sum, count: n - quarter - quarter })
}

/// Why nothing can be learned.
#[derive(Debug, Clone, Copy, PartialEq, Eq, Structural)]
pub enum ScanError {
    /// No frame has a background.
    NoUsableFrames { total_frames: u64 },
    /// Too few frames have a background.
    TooFewUsableFrames { used_frames: u64, total_frames: u64 },
}

impl ScanError {
    /// The message for the user.
    pub open spec fn spec_message(self) -> Seq<char> {
        match self {
            ScanError::NoUsableFrames { total_frames } => {
                "単色判定を通った有効フレームが0件でした（全"@ + text::decimal(total_frames as nat)
                    + "フレーム中）。ロゴ周りが単色になっているフレームが見つからないと学習できません （矩形の位置や --threshold を見直してください）。"@
            },
            ScanError::TooFewUsableFrames { used_frames, total_frames } => {
                "単色判定を通った有効フレームが"@ + text::decimal(used_frames as nat)
                    + "件しかありません（全"@ + text::decimal(total_frames as nat)
                    + "フレーム中、下限は"@ + text::decimal(MIN_USABLE_FRAMES as nat)
                    + "件）。件数が極端に少ないと、回帰係数が偶然有限値になり不正な検出に気づけないため、壊れたロゴデータを書き出さずに失敗させています（矩形の位置や --threshold を見直してください）。"@
            },
        }
    }

    /// The message for the user.
    pub fn message(&self) -> (m: String)
        ensures
            m@ == self.spec_message(),
    {
        let mut m = String::new();
        match self {
            ScanError::NoUsableFrames { total_frames } => {
                m.append("単色判定を通った有効フレームが0件でした（全");
                text::push_u64(&mut m, *total_frames);
                m.append(
                    "フレーム中）。ロゴ周りが単色になっているフレームが見つからないと学習できません （矩形の位置や --threshold を見直してください）。",
                );
            },
            ScanError::TooFewUsableFrames { used_frames, total_frames } => {
                m.append("単色判定を通った有効フレームが");
                text::push_u64(&mut m, *used_frames);
                m.append("件しかありません（全");
                text::push_u64(&mut m, *total_frames);
                m.append("フレーム中、下限は");
                text::push_u64(&mut m, MIN_USABLE_FRAMES);
                m.append(
                    "件）。件数が極端に少ないと、回帰係数が偶然有限値になり不正な検出に気づけないため、壊れたロゴデータを書き出さずに失敗させています（矩形の位置や --threshold を見直してください）。",
                );
            },
        }
        assert(m@ =~= self.spec_message());
        m
    }
}

/// The bits of a 64-bit floating-point number without its sign.
pub open spec fn magnitude_bits(bits: u64) -> u64 {
    bits % 0x8000_0000_0000_0000
}

/// Whether the bits of a 64-bit floating-point number are those of a finite number: its exponent
/// is not the largest one.
pub open spec fn is_finite_bits(bits: u64) -> bool {
    magnitude_bits(bits) < 0x7ff0_0000_0000_0000
}

/// Whether a logo can be made of the coefficients of a pixel, given by their bits: both are
/// finite, and the factor is not zero.
pub open spec fn is_usable_coefficient(a: u64, b: u64) -> bool {
    &&& is_finite_bits(a)
    &&& is_finite_bits(b)
    &&& magnitude_bits(a) != 0
}

/// The first pixel, from position `from` on, whose coefficients are of no use.
pub open spec fn first_unusable(coefficients: Seq<(u64, u64)>, from: int) -> Option<int>
    decreases coefficients.len() - from,
{
    if from < 0 || from >= coefficients.len() {
        None
    } else if !is_usable_coefficient(coefficients[from].0, coefficients[from].1) {
        Some(from)
    } else {
        first_unusable(coefficients, from + 1)
    }
}

/// A pixel whose coefficients, given by their bits, are of no use.
#[derive(Debug, Clone, Copy, PartialEq, Eq, Structural)]
pub struct InvalidCoefficient {
    pub pixel_index: usize,
    pub used_frames: u64,
    pub a: u64,
    pub b: u64,
}

impl InvalidCoefficient {
    /// The message for the user, where `a` and `b` are what to write for the coefficients.
    pub open spec fn spec_message(self, a: Seq<char>, b: Seq<char>) -> Seq<char> {
        "画素"@ + text::decimal(self.pixel_index as nat) + "個目の回帰係数が不正です（a="@ + a
            + ", b="@ + b + "）。有効フレーム"@ + text::decimal(self.used_frames as nat)
            + "件では学習できません（フレームが足りない、または画素の観測値が全フレームで同一で分散が0になっている（完全不透明な画素・一様な背景など）可能性があります）。壊れたロゴデータを書き出さずに失敗させています。"@
    }

    /// The message for the user, where `a` and `b` are what to write for the coefficients.
    pub fn message(&self, a: &str, b: &str) -> (m: String)
        ensures
            m@ == self.spec_message(a@, b@),
    {
        let mut m = String::new();
        m.append("画素");
        text::push_u64(&mut m, self.pixel_index as u64);
        m.append("個目の回帰係数が不正です（a=");
        m.append(a);
        m.append(", b=");
        m.append(b);
        m.append("）。有効フレーム");
        text::push_u64(&mut m, self.used_frames);
        m.append(
            "件では学習できません（フレームが足りない、または画素の観測値が全フレームで同一で分散が0になっている（完全不透明な画素・一様な背景など）可能性があります）。壊れたロゴデータを書き出さずに失敗させています。",
        );
        assert(m@ =~= self.spec_message(a@, b@));
        m
    }
}

/// Tells the frames that can be learned from, and counts them. What is computed from their
/// pixels is kept elsewhere.
pub struct FrameLearner {
    w: usize,
    h: usize,
    threshold: u8,
    border: Vec<usize>,
    used_frames: u64,
    total_frames: u64,
}

impl FrameLearner {
    /// The positions looked at are the outermost pixels of the frames, and no more frames have a
    /// background than there are.
    pub closed spec fn well_formed(&self) -> bool {
        &&& self.w <= u32::MAX
        &&& self.h <= u32::MAX
        &&& self.w * self.h <= usize::MAX
        &&& self.border@ == border(self.w as int, self.h as int)
        &&& self.used_frames <= self.total_frames
    }

    /// The number of bytes of a frame.
    pub closed spec fn frame_len(&self) -> int {
        self.w * self.h
    }

    /// What a frame says of its background.
    pub closed spec fn spec_background(&self, frame: Seq<u8>) -> Option<Background> {
        background_of(frame, border(self.w as int, self.h as int), self.threshold)
    }

    /// The number of frames with a background.
    pub closed spec fn spec_used(&self) -> u64 {
        self.used_frames
    }

    /// The number of frames.
    pub closed spec fn spec_total(&self) -> u64 {
        self.total_frames
    }

    /// Starts with frames of `w` by `h` pixels.
    pub fn new(w: u32, h: u32, threshold: u8) -> (t: Self)
        requires
            w * h <= usize::MAX,
        ensures
            t.well_formed(),
            t.frame_len() == w * h,
            forall|frame: Seq<u8>| #[trigger]
                t.spec_background(frame) == background_of(
                    frame,
                    border(w as int, h as int),
                    threshold,
                ),
            t.spec_used() == 0,
            t.spec_total() == 0,
    {
        FrameLearner {
            w: w as usize,
            h: h as usize,
            threshold,
            border: border_pixel_indices(w as usize, h as usize),
            used_frames: 0,
            total_frames: 0,
        }
    }

    /// Takes the next frame, and says what its background is.
    pub fn add_frame(&mut self, frame: &[u8]) -> (background: Option<Background>)
        requires
            old(self).well_formed(),
            frame@.len() == old(self).frame_len(),
            old(self).spec_total() < u64::MAX,
        ensures
            final(self).well_formed(),
            final(self).frame_len() == old(self).frame_len(),
            forall|f: Seq<u8>| #[trigger]
                final(self).spec_background(f) == old(self).spec_background(f),
            background == old(self).spec_background(frame@),
            final(self).spec_total() == old(self).spec_total() + 1,
            final(self).spec_used() == old(self).spec_used() + (if background is Some {
                1int
            } else {
                0
            }),
    {
        proof {
            border_is_the_outermost_pixels(self.w as int, self.h as int);
            assert forall|i: int| 0 <= i < self.border@.len() implies #[trigger] self.border@[i]
                < frame@.len() by {
                assert(self.border@.contains(self.border@[i]));
            }
            lemma_border_len(self.w as int, self.h as int);
        }
        self.total_frames = self.total_frames + 1;
        let background: Option<Background> = estimate_frame_background(
            frame,
            &self.border,
            self.threshold,
        );
        if background.is_some() {
            self.used_frames = self.used_frames + 1;
        }
        background
    }

    /// No more frames have a background than there are.
    pub proof fn used_frames_are_frames(&self)
        requires
            self.well_formed(),
        ensures
            self.spec_used() <= self.spec_total(),
    {
    }

    /// The number of frames with a background.
    pub fn used_frames(&self) -> (n: u64)
        ensures
            n == self.spec_used(),
    {
        self.used_frames
    }

    /// The number of frames.
    pub fn total_frames(&self) -> (n: u64)
        ensures
            n == self.spec_total(),
    {
        self.total_frames
    }

    /// Ends the learning: there must be enough frames to compute anything from.
    pub fn finish(&self) -> (r: Result<(), ScanError>)
        ensures
            r == (if self.spec_used() == 0 {
                Err::<(), ScanError>(ScanError::NoUsableFrames { total_frames: self.spec_total() })
            } else if self.spec_used() < MIN_USABLE_FRAMES {
                Err(
                    ScanError::TooFewUsableFrames {
                        used_frames: self.spec_used(),
                        total_frames: self.spec_total(),
                    },
                )
            } else {
                Ok(())
            }),
            r is Ok <==> self.spec_used() >= 4,
    {
        if self.used_frames == 0 {
            return Err(ScanError::NoUsableFrames { total_frames: self.total_frames });
        }
        if self.used_frames < MIN_USABLE_FRAMES {
            return Err(
                ScanError::TooFewUsableFrames {
                    used_frames: self.used_frames,
                    total_frames: self.total_frames,
                },
            );
        }
        Ok(())
    }

    /// Tells whether a logo can be made of the coefficients of the pixels, given by their bits.
    pub fn check_coefficients(&self, coefficients: &Vec<(u64, u64)>) -> (r: Result<
        (),
        InvalidCoefficient,
    >)
        ensures
            match first_unusable(coefficients@, 0) {
                Some(i) => {
                    &&& 0 <= i < coefficients@.len()
                    &&& !is_usable_coefficient(coefficients@[i].0, coefficients@[i].1)
                    &&& forall|j: int|
                        0 <= j < i ==> is_usable_coefficient(
                            (#[trigger] coefficients@[j]).0,
                            coefficients@[j].1,
                        )
                    &&& r == Err::<(), InvalidCoefficient>(
                        InvalidCoefficient {
                            pixel_index: i as usize,
                            used_frames: self.spec_used(),
                            a: coefficients@[i].0,
                            b: coefficients@[i].1,
                        },
                    )
                },
                None => {
                    &&& r == Ok::<(), InvalidCoefficient>(())
                    &&& forall|j: int|
                        0 <= j < coefficients@.len() ==> is_usable_coefficient(
                            (#[trigger] coefficients@[j]).0,
                            coefficients@[j].1,
                        )
                },
            },
    {
        let mut i: usize = 0;
        while i < coefficients.len()
            invariant
                i <= coefficients@.len(),
                first_unusable(coefficients@, 0) == first_unusable(coefficients@, i as int),
                forall|j: int|
                    0 <= j < i ==> is_usable_coefficient(
                        (#[trigger] coefficients@[j]).0,
                        coefficients@[j].1,
                    ),
            decreases coefficients@.len() - i,
        {
            let (a, b) = coefficients[i];
            let a_size: u64 = a % 0x8000_0000_0000_0000;
            let b_size: u64 = b % 0x8000_0000_0000_0000;
            if a_size >= 0x7ff0_0000_0000_0000 || b_size >= 0x7ff0_0000_0000_0000 || a_size == 0 {
                return Err(
                    InvalidCoefficient { pixel_index: i, used_frames: self.used_frames, a, b },
                );
            }
            i += 1;
        }
        Ok(())
    }
}

proof fn lemma_side_len(w: int, rows: int)
    ensures
        side_pixels(w, rows).len() <= (if rows >= 1 {
            2 * (rows - 1)
        } else {
            0
        }),
    decreases rows,
{
    if rows > 1 {
        lemma_side_len(w, rows - 1);
    }
}

proof fn lemma_border_len(w: int, h: int)
    requires
        0 <= w,
        0 <= h,
    ensures
        border(w, h).len() <= 2 * (w + h),
{
    lemma_side_len(w, h - 1);
    assert(h * w - (h - 1) * w == w) by (nonlinear_arith);
}

/// What a logo is to be learned from, and what it is to be called.
pub struct MakeLogoConfig {
    /// Where the logo is. Its width and height must be even, see [`round_rect_to_even`].
    pub rect: LogoRect,
    pub video_size: VideoSize,
    /// The number of frames of the video.
    pub frame_count: u64,
    pub threshold: u8,
    pub name: String,
    pub service_id: i32,
}

/// What was learned.
pub struct MakeLogoOutput {
    pub logo: LogoData,
    pub used_frames: u64,
    pub total_frames: u64,
}

/// The rectangle has an odd width or height.
#[derive(Debug, Clone, Copy, PartialEq, Eq, Structural)]
pub struct OddRect {
    pub w: u32,
    pub h: u32,
}

impl OddRect {
    /// The message for the user.
    pub open spec fn spec_message(self) -> Seq<char> {
        "ロゴ矩形の w/h は2の倍数である必要があります（クロマの間引きに合わせるため、round_rect_to_even で丸めてから渡すこと）: w="@
            + text::decimal(self.w as nat) + ", h="@ + text::decimal(self.h as nat)
    }

    /// The message for the user.
    pub fn message(&self) -> (m: String)
        ensures
            m@ == self.spec_message(),
    {
        let mut m = String::new();
        m.append(
            "ロゴ矩形の w/h は2の倍数である必要があります（クロマの間引きに合わせるため、round_rect_to_even で丸めてから渡すこと）: w=",
        );
        text::push_u64(&mut m, self.w as u64);
        m.append(", h=");
        text::push_u64(&mut m, self.h as u64);
        assert(m@ =~= self.spec_message());
        m
    }
}

/// `n` times the same number.
pub open spec fn repeated(v: u32, n: int) -> Seq<u32> {
    Seq::new(n as nat, |i: int| v)
}

fn repeat(v: u32, n: usize) -> (values: Vec<u32>)
    ensures
        values@ == repeated(v, n as int),
{
    let mut values: Vec<u32> = Vec::new();
    let mut i: usize = 0;
    while i < n
        invariant
            i <= n,
            values@ == repeated(v, i as int),
        decreases n - i,
    {
        values.push(v);
        i += 1;
        assert(values@ =~= repeated(v, i as int));
    }
    values
}

impl MakeLogoConfig {
    /// Checks that chroma planes of half the size can go with the rectangle.
    pub fn check_even(&self) -> (r: Result<(), OddRect>)
        ensures
            r == (if self.rect.w % 2 == 0 && self.rect.h % 2 == 0 {
                Ok::<(), OddRect>(())
            } else {
                Err(OddRect { w: self.rect.w, h: self.rect.h })
            }),
    {
        if self.rect.w % 2 == 0 && self.rect.h % 2 == 0 {
            Ok(())
        } else {
            Err(OddRect { w: self.rect.w, h: self.rect.h })
        }
    }

    /// The number of values of a chroma plane.
    pub open spec fn chroma_len(&self) -> int {
        (self.rect.w / 2) * (self.rect.h / 2)
    }

    /// The logo that consists of the given luma planes. Chroma is not learned: its planes leave
    /// every value as it is.
    pub open spec fn spec_logo(&self, a_y: Seq<u32>, b_y: Seq<u32>) -> lgd::LogoView {
        lgd::LogoView {
            w: bytes::signed32(self.rect.w),
            h: bytes::signed32(self.rect.h),
            log_uv_x: LOG_UV,
            log_uv_y: LOG_UV,
            imgw: bytes::signed32(self.video_size.width),
            imgh: bytes::signed32(self.video_size.height),
            imgx: bytes::signed32(self.rect.x),
            imgy: bytes::signed32(self.rect.y),
            name: self.name@,
            service_id: self.service_id,
            a_y,
            b_y,
            a_u: repeated(ONE_BITS, self.chroma_len()),
            b_u: repeated(0, self.chroma_len()),
            a_v: repeated(ONE_BITS, self.chroma_len()),
            b_v: repeated(0, self.chroma_len()),
        }
    }

    /// The logo that consists of the given luma planes.
    pub fn build_logo(&self, a_y: Vec<u32>, b_y: Vec<u32>) -> (logo: LogoData)
        requires
            self.chroma_len() <= usize::MAX,
        ensures
            logo@ == self.spec_logo(a_y@, b_y@),
    {
        let uv: usize = (self.rect.w / 2) as usize * (self.rect.h / 2) as usize;
        LogoData {
            w: bytes::to_signed32(self.rect.w),
            h: bytes::to_signed32(self.rect.h),
            log_uv_x: LOG_UV,
            log_uv_y: LOG_UV,
            imgw: bytes::to_signed32(self.video_size.width),
            imgh: bytes::to_signed32(self.video_size.height),
            imgx: bytes::to_signed32(self.rect.x),
            imgy: bytes::to_signed32(self.rect.y),
            name: self.name.as_str().to_owned(),
            service_id: self.service_id,
            a_y,
            b_y,
            a_u: repeat(ONE_BITS, uv),
            b_u: repeat(0, uv),
            a_v: repeat(ONE_BITS, uv),
            b_v: repeat(0, uv),
        }
    }
}

/// A logo that was learned from a rectangle of an ordinary size can be written, and reads back
/// with the name as far as it fits in a file.
pub proof fn learned_logo_reads_back(config: &MakeLogoConfig, a_y: Seq<u32>, b_y: Seq<u32>)
    requires
        0 < config.rect.w <= i16::MAX,
        0 < config.rect.h <= i16::MAX,
        a_y.len() == config.rect.w * config.rect.h,
        b_y.len() == config.rect.w * config.rect.h,
        !lgd_write::name_bytes(config.name@).contains(0u8),
    ensures
        lgd::parsed(lgd_write::lgd_bytes(config.spec_logo(a_y, b_y))) == Ok::<
            lgd::LogoView,
            lgd::LgdParseError,
        >(
            (lgd::LogoView {
                name: lgd_write::fitting_name(config.name@),
                ..config.spec_logo(a_y, b_y)
            }),
        ),
{
    let logo = config.spec_logo(a_y, b_y);
    let w = config.rect.w;
    let h = config.rect.h;
    assert(w >> 1 == w / 2 && h >> 1 == h / 2) by (bit_vector);
    assert(0 <= (w / 2) * (h / 2)) by (nonlinear_arith);
    assert(lgd::chroma_count(logo.w, logo.h, LOG_UV, LOG_UV) == config.chroma_len());
    lgd_write::written_logo_reads_back(logo);
}

} // verus!
