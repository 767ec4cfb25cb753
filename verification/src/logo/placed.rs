//! Where a logo may be: what boxes cover, which pixels belong together, and which candidates come
//! of them.

use crate::logo::bbox;
use crate::logo::bbox::Bbox;
use crate::logo::connected;
use crate::logo::dilate;
use crate::logo::estimate;
use crate::logo::estimate::{EffectMaps, PoolEntry};
use crate::logo::frames::{LogoRect, VideoSize};
use crate::logo::ranking;
use crate::logo::ranking::Ranked;
use crate::logo::regions;
use crate::logo::regions::Region;
use vstd::prelude::*;

verus! {

/// The union of two boxes covers what either covers, and no box that does so is smaller.
pub proof fn unions_are_the_smallest_cover(a: Bbox, b: Bbox, c: Bbox)
    requires
        a.x_min <= a.x_max && a.y_min <= a.y_max,
        b.x_min <= b.x_max && b.y_min <= b.y_max,
        forall|x: int, y: int|
            #![trigger c.covers(x, y)]
            a.covers(x, y) || b.covers(x, y) ==> c.covers(x, y),
    ensures
        forall|x: int, y: int|
            #![trigger a.spec_union(&b).covers(x, y)]
            a.covers(x, y) || b.covers(x, y) ==> a.spec_union(&b).covers(x, y),
        forall|x: int, y: int| #[trigger] a.spec_union(&b).covers(x, y) ==> c.covers(x, y),
{
    assert(c.covers(a.x_min as int, a.y_min as int));
    assert(c.covers(a.x_max as int, a.y_max as int));
    assert(c.covers(b.x_min as int, b.y_min as int));
    assert(c.covers(b.x_max as int, b.y_max as int));
}

/// The box of a rectangle covers its pixels and no other.
pub proof fn box_of_a_rectangle_covers_it(rect: LogoRect, x: int, y: int)
    requires
        1 <= rect.x + rect.w <= u32::MAX,
        1 <= rect.y + rect.h <= u32::MAX,
    ensures
        bbox::spec_bbox_from_rect(rect).covers(x, y) <==> rect.x <= x < rect.x + rect.w && rect.y
            <= y < rect.y + rect.h,
{
}

/// A logo is at most a fifth of the picture wide and three twentieths of it high, at least eight
/// pixels wide and high, and has at least twenty significant pixels.
pub proof fn logos_have_a_certain_size(b: Bbox, pixels: int, video_w: u32, video_h: u32)
    requires
        b.x_min <= b.x_max,
        b.y_min <= b.y_max,
    ensures
        bbox::is_within_upper_bound(b, video_w, video_h) <==> (b.x_max + 1 - b.x_min) * 5 <= video_w
            && (b.y_max + 1 - b.y_min) * 20 <= video_h * 3,
        bbox::is_above_lower_bound(b, pixels) <==> b.x_max + 1 - b.x_min >= 8 && b.y_max + 1
            - b.y_min >= 8 && pixels >= 20,
{
}

/// The gap between two ranges is what lies between them: nothing where they meet or overlap.
pub proof fn gaps_lie_between(a_min: int, a_max: int, b_min: int, b_max: int)
    requires
        a_min <= a_max,
        b_min <= b_max,
    ensures
        a_max < b_min ==> a_max + bbox::gap_between(a_min, a_max, b_min, b_max) + 1 == b_min,
        b_max < a_min ==> b_max + bbox::gap_between(a_min, a_max, b_min, b_max) + 1 == a_min,
        a_max >= b_min && b_max >= a_min ==> bbox::gap_between(a_min, a_max, b_min, b_max) == 0,
        bbox::gap_between(a_min, a_max, b_min, b_max) == bbox::gap_between(
            b_min,
            b_max,
            a_min,
            a_max,
        ),
{
}

/// The nearest multiple is one, and is no further away than half a unit. Halfway it is the larger
/// one.
pub proof fn nearest_multiples_are_near(v: int, unit: int) -> (k: int)
    requires
        unit > 0,
    ensures
        bbox::nearest_multiple(v, unit) == k * unit,
        -unit < 2 * (bbox::nearest_multiple(v, unit) - v) <= unit,
{
    let k = (2 * v + unit) / (2 * unit);
    assert(-unit < 2 * (k * unit - v) <= unit) by (nonlinear_arith)
        requires
            unit > 0,
            k == (2 * v + unit) / (2 * unit),
    ;
    k
}

/// Pixels next to each other, also across a corner, are connected.
pub proof fn neighbours_are_connected(
    mask: Seq<bool>,
    w: int,
    h: int,
    x: int,
    y: int,
    dx: int,
    dy: int,
)
    requires
        mask.len() == w * h,
        0 <= x < w,
        0 <= y < h,
        0 <= x + dx < w,
        0 <= y + dy < h,
        -1 <= dx <= 1,
        -1 <= dy <= 1,
        mask[y * w + x],
        mask[(y + dy) * w + x + dx],
    ensures
        connected::connected(mask, w, y * w + x, (y + dy) * w + x + dx),
{
    dilate::lemma_at(x, y, w, h);
    dilate::lemma_at(x + dx, y + dy, w, h);
    let (i, j) = (dilate::at(x, y, w), dilate::at(x + dx, y + dy, w));
    connected::lemma_connected_to_itself(mask, w, i);
    connected::lemma_connected_step(mask, w, i, i, j);
}

/// A pixel with no other one next to it is connected to itself alone.
pub proof fn lone_pixels_are_alone(mask: Seq<bool>, w: int, i: int, j: int)
    requires
        connected::connected(mask, w, i, j),
        forall|k: int|
            0 <= k < mask.len() && k != i && #[trigger] mask[k] ==> i % w - k % w > 1 || k % w - i
                % w > 1 || i / w - k / w > 1 || k / w - i / w > 1,
    ensures
        j == i,
{
    let path = choose|path: Seq<int>| #[trigger]
        connected::is_path(mask, w, path) && path[0] == i && path.last() == j;
    lemma_stays(mask, w, path, i, path.len() - 1);
}

proof fn lemma_stays(mask: Seq<bool>, w: int, path: Seq<int>, i: int, n: int)
    requires
        connected::is_path(mask, w, path),
        path[0] == i,
        0 <= n < path.len(),
        forall|k: int|
            0 <= k < mask.len() && k != i && #[trigger] mask[k] ==> i % w - k % w > 1 || k % w - i
                % w > 1 || i / w - k / w > 1 || k / w - i / w > 1,
    ensures
        path[n] == i,
    decreases n,
{
    if n > 0 {
        lemma_stays(mask, w, path, i, n - 1);
        assert(connected::touching(path[n - 1], path[n], w));
        assert(mask[path[n]]);
    }
}

/// Two regions are merged where at most sixteen pixels lie between their boxes, across and down,
/// and the box of both may still be that of a logo.
pub proof fn near_regions_may_merge(a: Region, b: Region, video_w: u32, video_h: u32)
    requires
        a.bbox.x_min <= a.bbox.x_max && a.bbox.y_min <= a.bbox.y_max,
        b.bbox.x_min <= b.bbox.x_max && b.bbox.y_min <= b.bbox.y_max,
    ensures
        regions::may_merge(a, b, video_w, video_h) <==> {
            &&& a.bbox.x_min <= b.bbox.x_max + 17 && b.bbox.x_min <= a.bbox.x_max + 17
            &&& a.bbox.y_min <= b.bbox.y_max + 17 && b.bbox.y_min <= a.bbox.y_max + 17
            &&& (a.bbox.x_max + 1 - a.bbox.x_min) * 5 <= video_w
            &&& (b.bbox.x_max + 1 - b.bbox.x_min) * 5 <= video_w
            &&& (a.bbox.x_max + 1 - b.bbox.x_min) * 5 <= video_w
            &&& (b.bbox.x_max + 1 - a.bbox.x_min) * 5 <= video_w
            &&& (a.bbox.y_max + 1 - a.bbox.y_min) * 20 <= video_h * 3
            &&& (b.bbox.y_max + 1 - b.bbox.y_min) * 20 <= video_h * 3
            &&& (a.bbox.y_max + 1 - b.bbox.y_min) * 20 <= video_h * 3
            &&& (b.bbox.y_max + 1 - a.bbox.y_min) * 20 <= video_h * 3
        },
{
}

/// The pair that is merged first is the first that may be, by its first region and then by its
/// second. Where there is none, no pair may be merged.
pub proof fn first_pair_is_merged(list: Seq<Region>, video_w: u32, video_h: u32)
    ensures
        match regions::pair_from(list, video_w, video_h, 0, 1) {
            Some((i, j)) => {
                &&& 0 <= i < j < list.len()
                &&& regions::may_merge(list[i], list[j], video_w, video_h)
                &&& forall|a: int, b: int|
                    0 <= a < b < list.len() && (a < i || a == i && b < j) ==> !regions::may_merge(
                        #[trigger] list[a],
                        #[trigger] list[b],
                        video_w,
                        video_h,
                    )
            },
            None => forall|a: int, b: int|
                0 <= a < b < list.len() ==> !regions::may_merge(
                    #[trigger] list[a],
                    #[trigger] list[b],
                    video_w,
                    video_h,
                ),
        },
{
    lemma_pair(list, video_w, video_h, 0, 1);
}

proof fn lemma_pair(list: Seq<Region>, video_w: u32, video_h: u32, i: int, j: int)
    requires
        0 <= i < j,
    ensures
        match regions::pair_from(list, video_w, video_h, i, j) {
            Some((p, q)) => {
                &&& 0 <= p < q < list.len()
                &&& p > i || p == i && q >= j
                &&& regions::may_merge(list[p], list[q], video_w, video_h)
                &&& forall|a: int, b: int|
                    0 <= a < b < list.len() && (a > i || a == i && b >= j) && (a < p || a == p && b
                        < q) ==> !regions::may_merge(
                        #[trigger] list[a],
                        #[trigger] list[b],
                        video_w,
                        video_h,
                    )
            },
            None => forall|a: int, b: int|
                0 <= a < b < list.len() && (a > i || a == i && b >= j) ==> !regions::may_merge(
                    #[trigger] list[a],
                    #[trigger] list[b],
                    video_w,
                    video_h,
                ),
        },
    decreases list.len() - i, list.len() - j,
{
    if i < list.len() {
        if j >= list.len() {
            lemma_pair(list, video_w, video_h, i + 1, i + 2);
        } else if !regions::may_merge(list[i], list[j], video_w, video_h) {
            lemma_pair(list, video_w, video_h, i, j + 1);
        }
    }
}

/// The box of a region covers its pixels, and each of its sides has one of them.
pub open spec fn is_boxed(w: int, region: Region) -> bool {
    &&& forall|k: int|
        0 <= k < region.pixels.len() ==> region.bbox.covers(
            #[trigger] region.pixels[k] as int % w,
            region.pixels[k] as int / w,
        )
    &&& bbox::has_column(w, region.pixels, region.bbox.x_min)
    &&& bbox::has_column(w, region.pixels, region.bbox.x_max)
    &&& bbox::has_row(w, region.pixels, region.bbox.y_min)
    &&& bbox::has_row(w, region.pixels, region.bbox.y_max)
}

proof fn lemma_joined(w: int, a: Region, b: Region)
    requires
        is_boxed(w, a),
        is_boxed(w, b),
    ensures
        is_boxed(w, Region { bbox: a.bbox.spec_union(&b.bbox), pixels: a.pixels + b.pixels }),
{
    let both = Region { bbox: a.bbox.spec_union(&b.bbox), pixels: a.pixels + b.pixels };
    let n = a.pixels.len();
    assert forall|k: int| 0 <= k < both.pixels.len() implies both.bbox.covers(
        #[trigger] both.pixels[k] as int % w,
        both.pixels[k] as int / w,
    ) by {
        if k < n {
            assert(a.bbox.covers(a.pixels[k] as int % w, a.pixels[k] as int / w));
        } else {
            assert(b.bbox.covers(b.pixels[k - n] as int % w, b.pixels[k - n] as int / w));
        }
    }
    assert forall|x: u32|
        bbox::has_column(w, a.pixels, x) || bbox::has_column(w, b.pixels, x) implies
        #[trigger] bbox::has_column(w, both.pixels, x) by {
        if bbox::has_column(w, a.pixels, x) {
            let k = choose|k: int|
                0 <= k < a.pixels.len() && #[trigger] a.pixels[k] as int % w == x;
            assert(both.pixels[k] == a.pixels[k]);
        } else {
            let k = choose|k: int|
                0 <= k < b.pixels.len() && #[trigger] b.pixels[k] as int % w == x;
            assert(both.pixels[n + k] == b.pixels[k]);
        }
    }
    assert forall|y: u32|
        bbox::has_row(w, a.pixels, y) || bbox::has_row(w, b.pixels, y) implies
        #[trigger] bbox::has_row(w, both.pixels, y) by {
        if bbox::has_row(w, a.pixels, y) {
            let k = choose|k: int|
                0 <= k < a.pixels.len() && #[trigger] a.pixels[k] as int / w == y;
            assert(both.pixels[k] == a.pixels[k]);
        } else {
            let k = choose|k: int|
                0 <= k < b.pixels.len() && #[trigger] b.pixels[k] as int / w == y;
            assert(both.pixels[n + k] == b.pixels[k]);
        }
    }
}

/// Merging keeps boxes to their pixels.
pub proof fn merging_keeps_boxes(list: Seq<Region>, video_w: u32, video_h: u32, w: int)
    requires
        forall|k: int| 0 <= k < list.len() ==> is_boxed(w, #[trigger] list[k]),
    ensures
        forall|k: int|
            0 <= k < regions::merged(list, video_w, video_h).len() ==> is_boxed(
                w,
                #[trigger] regions::merged(list, video_w, video_h)[k],
            ),
    decreases list.len(),
{
    lemma_pair(list, video_w, video_h, 0, 1);
    if let Some((i, j)) = regions::pair_from(list, video_w, video_h, 0, 1) {
        let next = regions::merge_pair(list, i, j);
        lemma_joined(w, list[i], list[j]);
        assert forall|k: int| 0 <= k < next.len() implies is_boxed(w, #[trigger] next[k]) by {
            if k != i {
                if k < j {
                    assert(next[k] == list[k]);
                } else {
                    assert(next[k] == list[k + 1]);
                }
            }
        }
        merging_keeps_boxes(next, video_w, video_h, w);
        assert(regions::merged(list, video_w, video_h) == regions::merged(next, video_w, video_h));
    } else {
        assert(regions::merged(list, video_w, video_h) == list);
    }
}

/// A pixel belongs to the structure of pixel `i` where both are set and a way leads from the one to
/// the other over pixels that have a set pixel within eight columns and rows.
pub open spec fn is_in_structure(mask: Seq<bool>, w: int, h: int, i: int, j: int) -> bool {
    &&& 0 <= j < mask.len()
    &&& mask[j]
    &&& connected::connected(regions::grown(mask, w, h), w, i, j)
}

/// A pixel of the grown mask is set where a set pixel is at most eight columns and eight rows away.
pub proof fn masks_grow_by_eight(mask: Seq<bool>, w: int, h: int, x: int, y: int)
    requires
        mask.len() == w * h,
        0 <= x < w,
        0 <= y < h,
    ensures
        0 <= dilate::at(x, y, w) < w * h,
        regions::grown(mask, w, h).len() == mask.len(),
        regions::grown(mask, w, h)[dilate::at(x, y, w)] <==> exists|a: int, b: int|
            0 <= a < w && 0 <= b < h && a - x <= 8 && x - a <= 8 && b - y <= 8 && y - b <= 8
                && mask[#[trigger] dilate::at(a, b, w)],
{
    dilate::lemma_at(x, y, w, h);
    let i = dilate::at(x, y, w);
    assert(regions::grown(mask, w, h)[i] == dilate::near_set_pixel(mask, w, h, 8, x, y));
}

proof fn lemma_structure(mask: Seq<bool>, wide: Seq<bool>, w: int, p: int, n: int)
    requires
        0 <= n <= mask.len() <= usize::MAX,
    ensures
        forall|j: usize| #[trigger]
            regions::structure(mask, wide, w, p, n).contains(j) <==> j < n && mask[j as int]
                && connected::connected(wide, w, p, j as int),
    decreases n,
{
    if n > 0 {
        lemma_structure(mask, wide, w, p, n - 1);
        let before = regions::structure(mask, wide, w, p, n - 1);
        let all = regions::structure(mask, wide, w, p, n);
        assert forall|j: usize| #[trigger] all.contains(j) <==> j < n && mask[j as int]
            && connected::connected(wide, w, p, j as int) by {
            if all.contains(j) {
                let k = choose|k: int| 0 <= k < all.len() && all[k] == j;
                if k < before.len() {
                    assert(before[k] == j && before.contains(j));
                }
            }
            if j < n && mask[j as int] && connected::connected(wide, w, p, j as int) {
                if j < n - 1 {
                    assert(before.contains(j));
                    let k = choose|k: int| 0 <= k < before.len() && before[k] == j;
                    assert(all[k] == j);
                } else {
                    assert(all[before.len() as int] == j);
                }
            }
        }
    }
}

/// Pixels `j` and `k` are not further apart than a logo is large.
pub open spec fn are_near(w: int, video_w: u32, video_h: u32, j: int, k: int) -> bool {
    &&& (j % w - k % w + 1) * 5 <= video_w
    &&& (j / w - k / w + 1) * 20 <= video_h * 3
}

/// Every two pixels of the structure of pixel `i` are near.
pub open spec fn has_small_structure(
    mask: Seq<bool>,
    w: int,
    h: int,
    video_w: u32,
    video_h: u32,
    i: int,
) -> bool {
    forall|j: int, k: int| #[trigger]
        is_in_structure(mask, w, h, i, j) && #[trigger] is_in_structure(mask, w, h, i, k)
            ==> are_near(w, video_w, video_h, j, k)
}

/// Of the set pixels those stay whose structure is not larger than a logo may be: no two pixels of
/// it are further apart.
pub proof fn pixels_of_large_structures_are_removed(
    mask: Seq<bool>,
    w: int,
    h: int,
    video_w: u32,
    video_h: u32,
    i: int,
)
    requires
        mask.len() == w * h,
        mask.len() <= usize::MAX,
        regions::is_picture(w, h),
        0 <= i < mask.len(),
    ensures
        regions::without_large(mask, w, h, video_w, video_h).len() == mask.len(),
        regions::without_large(mask, w, h, video_w, video_h)[i] <==> mask[i]
            && has_small_structure(mask, w, h, video_w, video_h, i),
{
    let n = mask.len() as int;
    let wide = regions::grown(mask, w, h);
    let pixels = regions::structure(mask, wide, w, i, n);
    let b = bbox::bounds(w, pixels);
    assert(w > 0) by (nonlinear_arith)
        requires
            0 <= w,
            0 < w * h,
    ;
    lemma_structure(mask, wide, w, i, n);
    if mask[i] {
        dilate::lemma_at_of(i, w, h);
        let (x, y) = (i % w, i / w);
        assert(dilate::near_set_pixel(mask, w, h, regions::DILATE_RADIUS as int, x, y)) by {
            assert(mask[dilate::at(x, y, w)]);
        }
        assert(wide[i]);
        connected::lemma_connected_to_itself(wide, w, i);
        assert(pixels.contains(i as usize));
        assert forall|k: int| 0 <= k < pixels.len() implies #[trigger] pixels[k] as int / w
            < u32::MAX && pixels[k] as int % w < u32::MAX by {
            assert(pixels.contains(pixels[k]));
            dilate::lemma_at_of(pixels[k] as int, w, h);
        }
        bbox::bounds_are_tight(w, pixels);
        if bbox::is_within_upper_bound(b, video_w, video_h) {
            assert forall|j: int, k: int| #[trigger]
                is_in_structure(mask, w, h, i, j) && #[trigger] is_in_structure(mask, w, h, i, k) implies are_near(w, video_w, video_h, j, k) by {
                assert(pixels.contains(j as usize));
                assert(pixels.contains(k as usize));
                let p = choose|p: int| 0 <= p < pixels.len() && pixels[p] == j as usize;
                let q = choose|q: int| 0 <= q < pixels.len() && pixels[q] == k as usize;
                assert(b.covers(pixels[p] as int % w, pixels[p] as int / w));
                assert(b.covers(pixels[q] as int % w, pixels[q] as int / w));
            }
        }
        if has_small_structure(mask, w, h, video_w, video_h, i) {
            let left = choose|k: int|
                0 <= k < pixels.len() && #[trigger] pixels[k] as int % w == b.x_min;
            let right = choose|k: int|
                0 <= k < pixels.len() && #[trigger] pixels[k] as int % w == b.x_max;
            let top = choose|k: int|
                0 <= k < pixels.len() && #[trigger] pixels[k] as int / w == b.y_min;
            let bottom = choose|k: int|
                0 <= k < pixels.len() && #[trigger] pixels[k] as int / w == b.y_max;
            assert(pixels.contains(pixels[left]) && pixels.contains(pixels[right]));
            assert(pixels.contains(pixels[top]) && pixels.contains(pixels[bottom]));
            assert(is_in_structure(mask, w, h, i, pixels[left] as int));
            assert(is_in_structure(mask, w, h, i, pixels[right] as int));
            assert(is_in_structure(mask, w, h, i, pixels[top] as int));
            assert(is_in_structure(mask, w, h, i, pixels[bottom] as int));
            assert(are_near(w, video_w, video_h, pixels[right] as int, pixels[left] as int));
            assert(are_near(w, video_w, video_h, pixels[bottom] as int, pixels[top] as int));
        }
    }
}

/// The regions that are kept are those, and only those, that have the size of a logo.
pub proof fn regions_of_the_right_size_are_kept(
    all: Seq<Region>,
    video_w: u32,
    video_h: u32,
    n: int,
)
    requires
        0 <= n <= all.len(),
    ensures
        forall|r: Region| #[trigger]
            estimate::fitting(all, video_w, video_h, n).contains(r) <==> has_size_of_logo(
                r,
                video_w,
                video_h,
            ) && all.take(n).contains(r),
    decreases n,
{
    if n > 0 {
        regions_of_the_right_size_are_kept(all, video_w, video_h, n - 1);
        let before = estimate::fitting(all, video_w, video_h, n - 1);
        let kept = estimate::fitting(all, video_w, video_h, n);
        let last = all[n - 1];
        assert(all.take(n) =~= all.take(n - 1).push(last));
        assert forall|r: Region| #[trigger] kept.contains(r) <==> has_size_of_logo(
            r,
            video_w,
            video_h,
        ) && all.take(n).contains(r) by {
            lemma_push_contains(all.take(n - 1), last, r);
            lemma_push_contains(before, last, r);
        }
    } else {
        assert(all.take(0) =~= Seq::empty());
    }
}

/// A region has the size of a logo.
pub open spec fn has_size_of_logo(r: Region, video_w: u32, video_h: u32) -> bool {
    &&& (r.bbox.x_max + 1 - r.bbox.x_min) * 5 <= video_w
    &&& (r.bbox.y_max + 1 - r.bbox.y_min) * 20 <= video_h * 3
    &&& r.bbox.x_max + 1 - r.bbox.x_min >= 8
    &&& r.bbox.y_max + 1 - r.bbox.y_min >= 8
    &&& r.pixels.len() >= 20
}

proof fn lemma_push_contains<T>(s: Seq<T>, e: T, x: T)
    ensures
        s.push(e).contains(x) <==> s.contains(x) || x == e,
{
    if s.contains(x) {
        let k = choose|k: int| 0 <= k < s.len() && s[k] == x;
        assert(s.push(e)[k] == x);
    }
    if x == e {
        assert(s.push(e)[s.len() as int] == x);
    }
    if s.push(e).contains(x) && x != e {
        let k = choose|k: int| 0 <= k < s.push(e).len() && s.push(e)[k] == x;
        assert(s[k] == x);
    }
}

/// A pixel is significant where it may belong to a logo, its effect reaches the threshold, and its
/// signs agree.
pub proof fn strong_steady_pixels_are_significant(maps: EffectMaps, threshold: u32, i: int)
    requires
        0 <= i < maps.effect@.len(),
    ensures
        maps.significant(threshold).len() == maps.effect@.len(),
        maps.significant(threshold)[i] <==> maps.valid@[i] && maps.sign_agrees@[i] && threshold
            <= maps.effect@[i],
{
}

/// The strongest effect of pixels is that of one of them, and no other is stronger.
pub proof fn strongest_effect_is_the_largest(effect: Seq<u32>, pixels: Seq<usize>, n: int)
    requires
        0 <= n <= pixels.len(),
    ensures
        forall|k: int|
            0 <= k < n ==> effect[#[trigger] pixels[k] as int] <= estimate::strongest(
                effect,
                pixels,
                n,
            ),
        n > 0 ==> exists|k: int|
            0 <= k < n && effect[#[trigger] pixels[k] as int] == estimate::strongest(
                effect,
                pixels,
                n,
            ),
        n == 0 ==> estimate::strongest(effect, pixels, n) == 0,
    decreases n,
{
    if n > 0 {
        strongest_effect_is_the_largest(effect, pixels, n - 1);
        if effect[pixels[n - 1] as int] >= estimate::strongest(effect, pixels, n - 1) {
            assert(effect[pixels[n - 1] as int] == estimate::strongest(effect, pixels, n));
        }
    }
}

/// `a` has its place before `b`, or ranks as high: the stronger effect comes first, then the box
/// that begins further to the left, further up, ends further to the left, and further up.
pub open spec fn comes_first(a: PoolEntry, b: PoolEntry) -> bool {
    let (p, q) = (a.bbox, b.bbox);
    ||| a.max_effect > b.max_effect
    ||| a.max_effect == b.max_effect && p.x_min < q.x_min
    ||| a.max_effect == b.max_effect && p.x_min == q.x_min && p.y_min < q.y_min
    ||| a.max_effect == b.max_effect && p.x_min == q.x_min && p.y_min == q.y_min && p.x_max
        < q.x_max
    ||| a.max_effect == b.max_effect && p.x_min == q.x_min && p.y_min == q.y_min && p.x_max
        == q.x_max && p.y_max <= q.y_max
}

/// Of the regions that a threshold gives, the three strongest are taken, or all where there are
/// fewer.
pub proof fn three_strongest_are_taken(
    maps: &EffectMaps,
    w: int,
    h: int,
    video_size: VideoSize,
    threshold: u32,
) -> (all: Seq<PoolEntry>)
    ensures
        ({
            let found = estimate::rung_regions(
                maps.significant(threshold),
                w,
                h,
                video_size.width,
                video_size.height,
            );
            let entries = Seq::new(
                found.len(),
                |i: int| estimate::entry_of(maps.effect@, found[i], threshold),
            );
            &&& all.to_multiset() == entries.to_multiset()
            &&& all.len() == found.len()
            &&& forall|i: int, j: int|
                0 <= i < j < all.len() ==> comes_first(#[trigger] all[i], #[trigger] all[j])
            &&& all.len() <= 3 ==> estimate::rung_entries(maps, w, h, video_size, threshold) == all
            &&& all.len() > 3 ==> estimate::rung_entries(maps, w, h, video_size, threshold)
                == seq![all[0], all[1], all[2]]
        }),
{
    let found = estimate::rung_regions(
        maps.significant(threshold),
        w,
        h,
        video_size.width,
        video_size.height,
    );
    let entries = estimate::entries_of(maps.effect@, found, threshold);
    assert(entries =~= Seq::new(
        found.len(),
        |i: int| estimate::entry_of(maps.effect@, found[i], threshold),
    ));
    let n = entries.len() as int;
    let all = ranking::ranked(entries);
    ranking::ranking_is_in_order(entries, n);
    assert(entries.take(n) =~= entries);
    assert forall|i: int, j: int| 0 <= i < j < all.len() implies comes_first(
        #[trigger] all[i],
        #[trigger] all[j],
    ) by {
        assert(!all[j].before(all[i]));
    }
    assert(all.len() <= 3 ==> all.take(all.len() as int) =~= all);
    assert(all.len() > 3 ==> all.take(3) =~= seq![all[0], all[1], all[2]]);
    all
}

/// An entry says of a region what it is: its box, its strongest effect, and how many pixels it has.
pub proof fn entries_tell_of_their_region(effect: Seq<u32>, region: Region, threshold: u32)
    requires
        region.pixels.len() <= usize::MAX,
    ensures
        estimate::entry_of(effect, region, threshold).bbox == region.bbox,
        estimate::entry_of(effect, region, threshold).significant_pixels == region.pixels.len(),
        estimate::entry_of(effect, region, threshold).threshold == threshold,
        forall|k: int|
            0 <= k < region.pixels.len() ==> effect[#[trigger] region.pixels[k] as int]
                <= estimate::entry_of(effect, region, threshold).max_effect,
{
    strongest_effect_is_the_largest(effect, region.pixels, region.pixels.len() as int);
}

/// What is found with several thresholds is what is found with each, one after another.
pub proof fn thresholds_add_up(
    maps: &EffectMaps,
    w: int,
    h: int,
    video_size: VideoSize,
    ladder: Seq<u32>,
    n: int,
)
    requires
        0 < n <= ladder.len(),
    ensures
        estimate::pool(maps, w, h, video_size, ladder, 0).len() == 0,
        estimate::pool(maps, w, h, video_size, ladder, n) == estimate::pool(
            maps,
            w,
            h,
            video_size,
            ladder,
            n - 1,
        ) + estimate::rung_entries(maps, w, h, video_size, ladder[n - 1]),
{
}

/// Two entries are taken for the same where their boxes begin at the same multiple of eight and
/// have the same multiple of eight as width and height, each rounded to the nearest one.
pub open spec fn are_alike(a: PoolEntry, b: PoolEntry) -> bool {
    &&& bbox::nearest_multiple(a.bbox.x_min as int, 8) == bbox::nearest_multiple(
        b.bbox.x_min as int,
        8,
    )
    &&& bbox::nearest_multiple(a.bbox.y_min as int, 8) == bbox::nearest_multiple(
        b.bbox.y_min as int,
        8,
    )
    &&& bbox::nearest_multiple(a.bbox.x_max + 1 - a.bbox.x_min, 8) == bbox::nearest_multiple(
        b.bbox.x_max + 1 - b.bbox.x_min,
        8,
    )
    &&& bbox::nearest_multiple(a.bbox.y_max + 1 - a.bbox.y_min, 8) == bbox::nearest_multiple(
        b.bbox.y_max + 1 - b.bbox.y_min,
        8,
    )
}

/// No earlier entry is like entry `i`.
pub open spec fn is_first_of_its_kind(entries: Seq<PoolEntry>, i: int) -> bool {
    forall|j: int| 0 <= j < i ==> !are_alike(#[trigger] entries[j], entries[i])
}

/// Of entries that are alike the first is kept: the kept ones are those, in their order, of which
/// no earlier one is alike.
pub proof fn first_of_alike_entries_is_kept(entries: Seq<PoolEntry>, n: int) -> (at: Seq<int>)
    requires
        0 <= n <= entries.len(),
    ensures
        estimate::distinct(entries, n) == at.map_values(|i: int| entries[i]),
        forall|k: int|
            0 <= k < at.len() ==> 0 <= #[trigger] at[k] < n && is_first_of_its_kind(entries, at[k]),
        forall|j: int, k: int| 0 <= j < k < at.len() ==> #[trigger] at[j] < #[trigger] at[k],
        forall|i: int|
            0 <= i < n && #[trigger] is_first_of_its_kind(entries, i) ==> at.contains(i),
{
    let at = lemma_kept(entries, n);
    assert forall|i: int| 0 <= i < n implies #[trigger] is_first_of_its_kind(entries, i)
        == is_first_by_key(entries, i) by {
        lemma_first_by_key(entries, i);
    }
    assert forall|k: int| 0 <= k < at.len() implies 0 <= #[trigger] at[k] < n
        && is_first_of_its_kind(entries, at[k]) by {
        lemma_first_by_key(entries, at[k]);
    }
    at
}

proof fn lemma_alike(a: PoolEntry, b: PoolEntry)
    ensures
        are_alike(a, b) <==> estimate::dedup_key(a) == estimate::dedup_key(b),
{
}

spec fn is_first_by_key(entries: Seq<PoolEntry>, i: int) -> bool {
    forall|j: int|
        0 <= j < i ==> estimate::dedup_key(#[trigger] entries[j]) != estimate::dedup_key(entries[i])
}

proof fn lemma_first_by_key(entries: Seq<PoolEntry>, i: int)
    ensures
        is_first_of_its_kind(entries, i) == is_first_by_key(entries, i),
{
    assert forall|j: int| 0 <= j < i implies are_alike(#[trigger] entries[j], entries[i]) == (
    estimate::dedup_key(entries[j]) == estimate::dedup_key(entries[i])) by {
        lemma_alike(entries[j], entries[i]);
    }
}

proof fn lemma_kept(entries: Seq<PoolEntry>, n: int) -> (at: Seq<int>)
    requires
        0 <= n <= entries.len(),
    ensures
        estimate::distinct(entries, n) == at.map_values(|i: int| entries[i]),
        forall|k: int|
            0 <= k < at.len() ==> 0 <= #[trigger] at[k] < n && is_first_by_key(entries, at[k]),
        forall|j: int, k: int| 0 <= j < k < at.len() ==> #[trigger] at[j] < #[trigger] at[k],
        forall|i: int| 0 <= i < n && #[trigger] is_first_by_key(entries, i) ==> at.contains(i),
        forall|i: int|
            0 <= i < n ==> estimate::has_twin(
                estimate::distinct(entries, n),
                #[trigger] entries[i],
            ),
    decreases n,
{
    if n > 0 {
        let before = lemma_kept(entries, n - 1);
        let kept = estimate::distinct(entries, n - 1);
        let e = entries[n - 1];
        if estimate::has_twin(kept, e) {
            let k = choose|k: int|
                0 <= k < kept.len() && estimate::dedup_key(#[trigger] kept[k])
                    == estimate::dedup_key(e);
            assert(kept[k] == entries[before[k]]);
            before
        } else {
            let at = before.push(n - 1);
            let all = estimate::distinct(entries, n);
            assert(all =~= at.map_values(|i: int| entries[i]));
            assert(is_first_by_key(entries, n - 1)) by {
                assert forall|j: int| 0 <= j < n - 1 implies estimate::dedup_key(
                    #[trigger] entries[j],
                ) != estimate::dedup_key(e) by {
                    assert(estimate::has_twin(kept, entries[j]));
                    let k = choose|k: int|
                        0 <= k < kept.len() && estimate::dedup_key(#[trigger] kept[k])
                            == estimate::dedup_key(entries[j]);
                    assert(estimate::dedup_key(kept[k]) != estimate::dedup_key(e));
                }
            }
            assert forall|i: int|
                0 <= i < n && #[trigger] is_first_by_key(entries, i) implies at.contains(i) by {
                if i < n - 1 {
                    let k = choose|k: int| 0 <= k < before.len() && before[k] == i;
                    assert(at[k] == i);
                } else {
                    assert(at[before.len() as int] == i);
                }
            }
            assert forall|i: int| 0 <= i < n implies estimate::has_twin(
                all,
                #[trigger] entries[i],
            ) by {
                if i < n - 1 {
                    assert(estimate::has_twin(kept, entries[i]));
                    let k = choose|k: int|
                        0 <= k < kept.len() && estimate::dedup_key(#[trigger] kept[k])
                            == estimate::dedup_key(entries[i]);
                    assert(all[k] == kept[k]);
                } else {
                    assert(all[kept.len() as int] == e);
                }
            }
            at
        }
    } else {
        let at = Seq::<int>::empty();
        assert(estimate::distinct(entries, n) =~= at.map_values(|i: int| entries[i]));
        at
    }
}

/// The candidates are all entries that were kept, in the order of their ranks.
pub proof fn kept_entries_become_candidates(
    maps: &EffectMaps,
    w: int,
    h: int,
    video_size: VideoSize,
    ladder: Seq<u32>,
)
    ensures
        ({
            let pooled = estimate::pool(maps, w, h, video_size, ladder, ladder.len() as int);
            let kept = estimate::distinct(pooled, pooled.len() as int);
            let last = estimate::final_entries(maps, w, h, video_size, ladder);
            &&& last.to_multiset() == kept.to_multiset()
            &&& last.len() == kept.len()
            &&& forall|i: int, j: int|
                0 <= i < j < last.len() ==> comes_first(#[trigger] last[i], #[trigger] last[j])
        }),
{
    let pooled = estimate::pool(maps, w, h, video_size, ladder, ladder.len() as int);
    let kept = estimate::distinct(pooled, pooled.len() as int);
    let last = estimate::final_entries(maps, w, h, video_size, ladder);
    let n = kept.len() as int;
    ranking::ranking_is_in_order(kept, n);
    assert(kept.take(n) =~= kept);
    assert forall|i: int, j: int| 0 <= i < j < last.len() implies comes_first(
        #[trigger] last[i],
        #[trigger] last[j],
    ) by {
        assert(!last[j].before(last[i]));
    }
}

/// The rectangle around a box is what is at most eight pixels away from it and in the picture. The
/// rectangle of a candidate is that, without a column or row where it must become even, and its raw
/// box is the box.
pub proof fn rectangles_have_a_margin_of_eight(e: PoolEntry, video_size: VideoSize, x: int, y: int)
    requires
        e.bbox.x_min <= e.bbox.x_max < video_size.width,
        e.bbox.y_min <= e.bbox.y_max < video_size.height,
    ensures
        ({
            let rect = estimate::with_margin(e.bbox, video_size);
            let candidate = estimate::candidate_of(e, video_size);
            let even = candidate.estimated_rect;
            let raw = candidate.raw_bbox;
            &&& rect.x <= x < rect.x + rect.w <==> 0 <= x < video_size.width && e.bbox.x_min - 8
                <= x <= e.bbox.x_max + 8
            &&& rect.y <= y < rect.y + rect.h <==> 0 <= y < video_size.height && e.bbox.y_min - 8
                <= y <= e.bbox.y_max + 8
            &&& 0 <= rect.x - even.x <= 1 && even.x % 2 == 0
            &&& 0 <= rect.y - even.y <= 1 && even.y % 2 == 0
            &&& 0 <= rect.w - even.w <= 1 && even.w % 2 == 0
            &&& 0 <= rect.h - even.h <= 1 && even.h % 2 == 0
            &&& raw.x <= x < raw.x + raw.w <==> e.bbox.x_min <= x <= e.bbox.x_max
            &&& raw.y <= y < raw.y + raw.h <==> e.bbox.y_min <= y <= e.bbox.y_max
            &&& candidate.max_effect == e.max_effect
            &&& candidate.significant_pixels == e.significant_pixels
            &&& candidate.rung_threshold == e.threshold
        }),
{
}

/// A pixel of a grown line or picture is set where a set pixel is near enough. Growing keeps set
/// pixels, and growing more sets no fewer.
pub proof fn growing_sets_what_is_near(
    mask: Seq<bool>,
    w: int,
    h: int,
    radius: int,
    x: int,
    y: int,
    a: int,
    b: int,
)
    requires
        0 <= x < w,
        0 <= y < h,
        0 <= a < w,
        0 <= b < h,
    ensures
        mask[b * w + a] && a - x <= radius && x - a <= radius && b - y <= radius && y - b <= radius
            ==> dilate::near_set_pixel(mask, w, h, radius, x, y),
        radius >= 0 && mask[y * w + x] ==> dilate::near_set_pixel(mask, w, h, radius, x, y),
        dilate::near_set_pixel(mask, w, h, radius, x, y) ==> dilate::near_set_pixel(
            mask,
            w,
            h,
            radius + 1,
            x,
            y,
        ),
        (forall|p: int, q: int|
            0 <= p < w && 0 <= q < h && mask[#[trigger] dilate::at(p, q, w)] ==> p - x > radius || x
                - p > radius || q - y > radius || y - q > radius) ==> !dilate::near_set_pixel(
            mask,
            w,
            h,
            radius,
            x,
            y,
        ),
{
    assert(dilate::at(a, b, w) == b * w + a);
    assert(dilate::at(x, y, w) == y * w + x);
    if dilate::near_set_pixel(mask, w, h, radius, x, y) {
        let (p, q) = choose|p: int, q: int|
            0 <= p < w && 0 <= q < h && x - radius <= p <= x + radius && y - radius <= q <= y
                + radius && mask[#[trigger] dilate::at(p, q, w)];
        assert(mask[dilate::at(p, q, w)]);
    }
}

/// The same of a line.
pub proof fn growing_a_line_sets_what_is_near(s: Seq<bool>, radius: int, x: int, a: int)
    requires
        0 <= x < s.len(),
        0 <= a < s.len(),
    ensures
        s[a] && a - x <= radius && x - a <= radius ==> dilate::near_set(s, radius, x),
        radius >= 0 && s[x] ==> dilate::near_set(s, radius, x),
        (forall|p: int|
            0 <= p < s.len() && #[trigger] s[p] ==> p - x > radius || x - p > radius)
            ==> !dilate::near_set(s, radius, x),
{
}

/// The regions of a mask are made of its set pixels: every one is in a region, and pixels of the
/// same region are connected. Their boxes are kept to them.
pub proof fn regions_are_made_of_connected_pixels(mask: Seq<bool>, w: int, h: int, k: int)
    requires
        mask.len() == w * h,
        mask.len() <= usize::MAX,
        regions::is_picture(w, h),
        0 <= k < regions::all_regions(mask, w).len(),
    ensures
        is_boxed(w, regions::all_regions(mask, w)[k]),
        forall|a: int|
            0 <= a < regions::all_regions(mask, w)[k].pixels.len() ==> {
                &&& #[trigger] regions::all_regions(mask, w)[k].pixels[a] < mask.len()
                &&& mask[regions::all_regions(mask, w)[k].pixels[a] as int]
            },
        forall|a: int, b: int|
            0 <= a < regions::all_regions(mask, w)[k].pixels.len() && 0 <= b
                < regions::all_regions(mask, w)[k].pixels.len() ==> connected::connected(
                mask,
                w,
                #[trigger] regions::all_regions(mask, w)[k].pixels[a] as int,
                #[trigger] regions::all_regions(mask, w)[k].pixels[b] as int,
            ),
        forall|a: int, j: int|
            0 <= a < regions::all_regions(mask, w)[k].pixels.len() && #[trigger]
                connected::connected(
                mask,
                w,
                #[trigger] regions::all_regions(mask, w)[k].pixels[a] as int,
                j,
            ) ==> regions::all_regions(mask, w)[k].pixels.contains(j as usize),
{
    let n = mask.len() as int;
    let first = connected::firsts(mask, w, n)[k];
    let region = regions::all_regions(mask, w)[k];
    let pixels = region.pixels;
    connected::lemma_firsts_below(mask, w, n, k);
    connected::lemma_component_members(mask, w, first, n);
    assert(region == regions::region_at(mask, w, first));
    assert(w > 0) by (nonlinear_arith)
        requires
            0 <= w,
            0 < w * h,
    ;
    connected::lemma_connected_to_itself(mask, w, first);
    assert(pixels.contains(first as usize));
    assert forall|a: int| 0 <= a < pixels.len() implies #[trigger] pixels[a] as int / w < u32::MAX
        && pixels[a] as int % w < u32::MAX by {
        dilate::lemma_at_of(pixels[a] as int, w, h);
    }
    bbox::bounds_are_tight(w, pixels);
    assert forall|a: int, b: int|
        0 <= a < pixels.len() && 0 <= b < pixels.len() implies connected::connected(
        mask,
        w,
        #[trigger] pixels[a] as int,
        #[trigger] pixels[b] as int,
    ) by {
        connected::lemma_connected_symmetric(mask, w, first, pixels[a] as int);
        connected::lemma_connected_transitive(mask, w, pixels[a] as int, first, pixels[b] as int);
    }
    assert forall|a: int, j: int|
        0 <= a < pixels.len() && #[trigger] connected::connected(
            mask,
            w,
            #[trigger] pixels[a] as int,
            j,
        ) implies pixels.contains(j as usize) by {
        connected::lemma_connected_transitive(mask, w, first, pixels[a] as int, j);
        connected::lemma_connected_is_set(mask, w, first, j);
    }
}

} // verus!
