//! Finding out where a logo is.
//!
//! A logo leaves a step of brightness at its edges that is there at all times. How strong
//! the step at a pixel is, and whether it always has the same sign, is measured elsewhere; the
//! strength is given here as the bits of a floating-point number that is not negative, which
//! are ordered as the numbers are. Pixels whose step reaches a threshold form regions. Those
//! that may be a logo become candidates, and candidates are judged by how well their presence
//! tells the program from commercials.

use crate::logo::bbox;
use crate::logo::bbox::Bbox;
use crate::logo::frames::{LogoRect, VideoSize};
use crate::logo::ranking;
use crate::logo::ranking::Ranked;
use crate::logo::regions;
use crate::logo::regions::Component;
use crate::logo::scan;
use crate::text;
use vstd::prelude::*;

verus! {

/// How many of the strongest regions of each threshold become candidates.
pub const TOP_K_PER_RUNG: usize = 3;

/// How far the rectangle of a candidate reaches beyond its pixels.
pub const RECT_MARGIN: u32 = 8;

/// Candidates are the same where their positions and sizes agree when rounded to this.
pub const DEDUP_ROUND: u32 = 8;

/// The steps at the pixels of a picture, row by row.
pub struct EffectMaps {
    /// The strength of the step, as the bits of a number that is not negative.
    pub effect: Vec<u32>,
    /// The step mostly has the same sign.
    pub sign_agrees: Vec<bool>,
    /// The pixel can belong to a logo at all.
    pub valid: Vec<bool>,
}

impl EffectMaps {
    /// There is a value for each of `n` pixels.
    pub open spec fn is_for(&self, n: int) -> bool {
        &&& self.effect@.len() == n
        &&& self.sign_agrees@.len() == n
        &&& self.valid@.len() == n
    }

    /// The pixels whose step reaches a threshold.
    pub open spec fn significant(&self, threshold: u32) -> Seq<bool> {
        Seq::new(
            self.effect@.len(),
            |i: int| self.valid@[i] && self.effect@[i] >= threshold && self.sign_agrees@[i],
        )
    }
}

/// The first `n` regions, without those that are too large or too small for a logo.
pub open spec fn fitting(
    all: Seq<regions::Region>,
    video_w: u32,
    video_h: u32,
    n: int,
) -> Seq<regions::Region>
    decreases n,
{
    if n <= 0 {
        Seq::empty()
    } else {
        let rest = fitting(all, video_w, video_h, n - 1);
        let region = all[n - 1];
        if bbox::is_within_upper_bound(region.bbox, video_w, video_h) && bbox::is_above_lower_bound(
            region.bbox,
            region.pixels.len() as int,
        ) {
            rest.push(region)
        } else {
            rest
        }
    }
}

/// The regions of significant pixels that may be a logo: large structures are removed, what is
/// left is divided into connected components, close components are merged, and those of a
/// fitting size remain.
pub open spec fn rung_regions(
    mask: Seq<bool>,
    w: int,
    h: int,
    video_w: u32,
    video_h: u32,
) -> Seq<regions::Region> {
    let all = regions::merged(
        regions::all_regions(regions::without_large(mask, w, h, video_w, video_h), w),
        video_w,
        video_h,
    );
    fitting(all, video_w, video_h, all.len() as int)
}

fn keep_fitting(components: Vec<Component>, video_w: u32, video_h: u32) -> (r: Vec<Component>)
    requires
        forall|k: int|
            0 <= k < components@.len() ==> regions::is_bounded(#[trigger] components@[k].bbox),
    ensures
        regions::regions_of(r@) == fitting(
            regions::regions_of(components@),
            video_w,
            video_h,
            components@.len() as int,
        ),
        forall|k: int| 0 <= k < r@.len() ==> regions::is_bounded(#[trigger] r@[k].bbox),
{
    let ghost all = regions::regions_of(components@);
    let total: usize = components.len();
    let mut left: Vec<Component> = components;
    let mut seen: usize = 0;
    let mut kept: usize = 0;
    while seen < total
        invariant
            all == regions::regions_of(components@),
            total == components@.len(),
            seen <= total,
            kept <= seen,
            left@.len() == kept + (total - seen),
            forall|k: int|
                0 <= k < left@.len() ==> regions::is_bounded(#[trigger] left@[k].bbox),
            regions::regions_of(left@.take(kept as int)) == fitting(
                all,
                video_w,
                video_h,
                seen as int,
            ),
            forall|k: int|
                kept <= k < left@.len() ==> #[trigger] left@[k] == components@[k - kept + seen],
        decreases total - seen,
    {
        let ghost before = left@;
        let fits: bool = bbox::passes_size_bounds(
            left[kept].bbox,
            left[kept].pixels.len(),
            video_w,
            video_h,
        );
        proof {
            assert(before[kept as int] == components@[seen as int]);
            assert(all[seen as int] == components@[seen as int]@);
        }
        if fits {
            proof {
                assert(regions::regions_of(left@.take(kept + 1)) =~= regions::regions_of(
                    left@.take(kept as int),
                ).push(all[seen as int]));
            }
            kept += 1;
        } else {
            left.remove(kept);
            proof {
                assert(left@.take(kept as int) =~= before.take(kept as int));
                assert forall|k: int| kept <= k < left@.len() implies #[trigger] left@[k]
                    == components@[k - kept + seen + 1] by {
                    assert(left@[k] == before[k + 1]);
                }
                assert forall|k: int| 0 <= k < left@.len() implies regions::is_bounded(
                    #[trigger] left@[k].bbox,
                ) by {
                    if k < kept {
                        assert(left@[k] == before[k]);
                    } else {
                        assert(left@[k] == before[k + 1]);
                    }
                }
            }
        }
        seen += 1;
    }
    assert(left@.take(kept as int) =~= left@);
    left
}

/// The regions of pixels whose step reaches a threshold that may be a logo.
pub fn process_rung(
    w: usize,
    h: usize,
    maps: &EffectMaps,
    threshold: u32,
    video_size: VideoSize,
) -> (components: Vec<Component>)
    requires
        maps.is_for(w * h),
        regions::is_picture(w as int, h as int),
    ensures
        regions::regions_of(components@) == rung_regions(
            maps.significant(threshold),
            w as int,
            h as int,
            video_size.width,
            video_size.height,
        ),
        forall|k: int|
            0 <= k < components@.len() ==> regions::is_bounded(#[trigger] components@[k].bbox),
{
    let n: usize = maps.effect.len();
    let mut mask: Vec<bool> = Vec::new();
    let mut i: usize = 0;
    while i < n
        invariant
            n == maps.effect@.len(),
            maps.is_for(n as int),
            i <= n,
            mask@.len() == i,
            forall|k: int| 0 <= k < i ==> #[trigger] mask@[k] == maps.significant(threshold)[k],
        decreases n - i,
    {
        mask.push(maps.valid[i] && maps.effect[i] >= threshold && maps.sign_agrees[i]);
        i += 1;
    }
    assert(mask@ =~= maps.significant(threshold));
    let small: Vec<bool> = regions::remove_large(w, h, &mask, video_size.width, video_size.height);
    let components: Vec<Component> = regions::label_to_components(w, h, small.as_slice());
    let components: Vec<Component> = regions::greedy_merge(
        components,
        video_size.width,
        video_size.height,
    );
    keep_fitting(components, video_size.width, video_size.height)
}

/// A region among the strongest of its threshold.
#[derive(Debug, Clone, Copy, PartialEq, Eq, Structural)]
pub struct PoolEntry {
    pub bbox: Bbox,
    /// The strongest step of its pixels.
    pub max_effect: u32,
    pub significant_pixels: usize,
    /// The threshold that its pixels reach.
    pub threshold: u32,
}

impl Ranked for PoolEntry {
    /// The stronger step ranks first, then what is further to the left, further up, less far to
    /// the right, less far down.
    open spec fn before(self, other: Self) -> bool {
        if self.max_effect != other.max_effect {
            self.max_effect > other.max_effect
        } else if self.bbox.x_min != other.bbox.x_min {
            self.bbox.x_min < other.bbox.x_min
        } else if self.bbox.y_min != other.bbox.y_min {
            self.bbox.y_min < other.bbox.y_min
        } else if self.bbox.x_max != other.bbox.x_max {
            self.bbox.x_max < other.bbox.x_max
        } else {
            self.bbox.y_max < other.bbox.y_max
        }
    }

    fn ranks_before(&self, other: &Self) -> (r: bool) {
        if self.max_effect != other.max_effect {
            self.max_effect > other.max_effect
        } else if self.bbox.x_min != other.bbox.x_min {
            self.bbox.x_min < other.bbox.x_min
        } else if self.bbox.y_min != other.bbox.y_min {
            self.bbox.y_min < other.bbox.y_min
        } else if self.bbox.x_max != other.bbox.x_max {
            self.bbox.x_max < other.bbox.x_max
        } else {
            self.bbox.y_max < other.bbox.y_max
        }
    }

    proof fn is_weak_order(a: Self, b: Self, c: Self) {
    }
}

/// The strongest step among the first `n` of `pixels`.
pub open spec fn strongest(effect: Seq<u32>, pixels: Seq<usize>, n: int) -> u32
    decreases n,
{
    if n <= 0 {
        0
    } else {
        let before = strongest(effect, pixels, n - 1);
        let here = effect[pixels[n - 1] as int];
        if here > before {
            here
        } else {
            before
        }
    }
}

/// A region as an entry.
pub open spec fn entry_of(effect: Seq<u32>, region: regions::Region, threshold: u32) -> PoolEntry {
    PoolEntry {
        bbox: region.bbox,
        max_effect: strongest(effect, region.pixels, region.pixels.len() as int),
        significant_pixels: region.pixels.len() as usize,
        threshold,
    }
}

/// Regions as entries.
pub open spec fn entries_of(
    effect: Seq<u32>,
    all: Seq<regions::Region>,
    threshold: u32,
) -> Seq<PoolEntry> {
    Seq::new(all.len(), |i: int| entry_of(effect, all[i], threshold))
}

/// The entries of a threshold: the strongest of its regions.
pub open spec fn rung_entries(
    maps: &EffectMaps,
    w: int,
    h: int,
    video_size: VideoSize,
    threshold: u32,
) -> Seq<PoolEntry> {
    let all = rung_regions(
        maps.significant(threshold),
        w,
        h,
        video_size.width,
        video_size.height,
    );
    let entries = entries_of(maps.effect@, all, threshold);
    let ranked = ranking::ranked(entries);
    ranked.take(
        if ranked.len() < TOP_K_PER_RUNG {
            ranked.len() as int
        } else {
            TOP_K_PER_RUNG as int
        },
    )
}

/// The entries of the first `n` thresholds.
pub open spec fn pool(
    maps: &EffectMaps,
    w: int,
    h: int,
    video_size: VideoSize,
    ladder: Seq<u32>,
    n: int,
) -> Seq<PoolEntry>
    decreases n,
{
    if n <= 0 {
        Seq::empty()
    } else {
        pool(maps, w, h, video_size, ladder, n - 1) + rung_entries(
            maps,
            w,
            h,
            video_size,
            ladder[n - 1],
        )
    }
}

/// All pixels of the regions lie within `n` pixels.
spec fn pixels_below(all: Seq<regions::Region>, n: int) -> bool {
    forall|k: int, i: int|
        0 <= k < all.len() && 0 <= i < all[k].pixels.len() ==> #[trigger] all[k].pixels[i] < n
}

/// An entry lies within a picture and has the size that a logo may have.
pub open spec fn may_be_logo(e: PoolEntry, w: int, h: int, video_size: VideoSize) -> bool {
    &&& regions::is_inside(e.bbox, w, h)
    &&& bbox::is_within_upper_bound(e.bbox, video_size.width, video_size.height)
    &&& bbox::is_above_lower_bound(e.bbox, e.significant_pixels as int)
}

/// All entries lie within a picture and have the size that a logo may have.
pub open spec fn may_be_logos(
    entries: Seq<PoolEntry>,
    w: int,
    h: int,
    video_size: VideoSize,
) -> bool {
    forall|k: int| 0 <= k < entries.len() ==> may_be_logo(#[trigger] entries[k], w, h, video_size)
}

proof fn lemma_all_regions_pixels(mask: Seq<bool>, w: int)
    requires
        mask.len() <= usize::MAX,
    ensures
        pixels_below(regions::all_regions(mask, w), mask.len() as int),
{
    let n = mask.len() as int;
    let all = regions::all_regions(mask, w);
    assert forall|k: int, i: int| 0 <= k < all.len() && 0 <= i < all[k].pixels.len() implies
        #[trigger] all[k].pixels[i] < n by {
        let p = crate::logo::connected::firsts(mask, w, n)[k];
        crate::logo::connected::lemma_component_members(mask, w, p, n);
    }
}

proof fn lemma_merged_pixels(all: Seq<regions::Region>, video_w: u32, video_h: u32, n: int)
    requires
        pixels_below(all, n),
    ensures
        pixels_below(regions::merged(all, video_w, video_h), n),
{
    let merged = regions::merged(all, video_w, video_h);
    assert forall|k: int, i: int| 0 <= k < merged.len() && 0 <= i < merged[k].pixels.len() implies
        #[trigger] merged[k].pixels[i] < n by {
        let p = merged[k].pixels[i];
        assert(merged[k].pixels.contains(p));
        regions::merging_keeps_pixels(all, video_w, video_h, p);
        let j = choose|j: int| 0 <= j < all.len() && (#[trigger] all[j]).pixels.contains(p);
        let q = choose|q: int| 0 <= q < all[j].pixels.len() && all[j].pixels[q] == p;
        assert(all[j].pixels[q] < n);
    }
}

proof fn lemma_fitting(all: Seq<regions::Region>, video_w: u32, video_h: u32, n: int, w: int, h: int)
    requires
        0 <= n <= all.len(),
        regions::are_inside(all, w, h),
        pixels_below(all, w * h),
    ensures
        regions::are_inside(fitting(all, video_w, video_h, n), w, h),
        pixels_below(fitting(all, video_w, video_h, n), w * h),
        forall|k: int|
            0 <= k < fitting(all, video_w, video_h, n).len() ==> bbox::is_within_upper_bound(
                (#[trigger] fitting(all, video_w, video_h, n)[k]).bbox,
                video_w,
                video_h,
            ),
        forall|k: int|
            0 <= k < fitting(all, video_w, video_h, n).len() ==> bbox::is_above_lower_bound(
                (#[trigger] fitting(all, video_w, video_h, n)[k]).bbox,
                fitting(all, video_w, video_h, n)[k].pixels.len() as int,
            ),
    decreases n,
{
    if n > 0 {
        lemma_fitting(all, video_w, video_h, n - 1, w, h);
        let rest = fitting(all, video_w, video_h, n - 1);
        let kept = fitting(all, video_w, video_h, n);
        assert(regions::is_inside(all[n - 1].bbox, w, h));
        assert forall|k: int, i: int| 0 <= k < kept.len() && 0 <= i < kept[k].pixels.len() implies
            #[trigger] kept[k].pixels[i] < w * h by {
            if k < rest.len() {
                assert(kept[k] == rest[k]);
                assert(rest[k].pixels[i] < w * h);
            } else {
                assert(all[n - 1].pixels[i] < w * h);
            }
        }
    }
}

/// The regions of a threshold lie within the picture, have pixels of it, and have the size that
/// a logo may have.
proof fn lemma_rung_regions(mask: Seq<bool>, w: int, h: int, video_w: u32, video_h: u32)
    requires
        mask.len() == w * h,
        mask.len() <= usize::MAX,
        regions::is_picture(w, h),
    ensures
        regions::are_inside(rung_regions(mask, w, h, video_w, video_h), w, h),
        pixels_below(rung_regions(mask, w, h, video_w, video_h), w * h),
        forall|k: int|
            0 <= k < rung_regions(mask, w, h, video_w, video_h).len()
                ==> bbox::is_within_upper_bound(
                (#[trigger] rung_regions(mask, w, h, video_w, video_h)[k]).bbox,
                video_w,
                video_h,
            ),
        forall|k: int|
            0 <= k < rung_regions(mask, w, h, video_w, video_h).len()
                ==> bbox::is_above_lower_bound(
                (#[trigger] rung_regions(mask, w, h, video_w, video_h)[k]).bbox,
                rung_regions(mask, w, h, video_w, video_h)[k].pixels.len() as int,
            ),
{
    let small = regions::without_large(mask, w, h, video_w, video_h);
    let all = regions::all_regions(small, w);
    regions::regions_lie_in_picture(small, w, h);
    lemma_all_regions_pixels(small, w);
    regions::merged_regions_lie_in_picture(all, video_w, video_h, w, h);
    lemma_merged_pixels(all, video_w, video_h, w * h);
    let merged = regions::merged(all, video_w, video_h);
    lemma_fitting(merged, video_w, video_h, merged.len() as int, w, h);
}

fn strongest_of(effect: &Vec<u32>, pixels: &Vec<usize>) -> (e: u32)
    requires
        forall|i: int| 0 <= i < pixels@.len() ==> #[trigger] pixels@[i] < effect@.len(),
    ensures
        e == strongest(effect@, pixels@, pixels@.len() as int),
{
    let mut e: u32 = 0;
    let mut i: usize = 0;
    while i < pixels.len()
        invariant
            forall|i: int| 0 <= i < pixels@.len() ==> #[trigger] pixels@[i] < effect@.len(),
            i <= pixels@.len(),
            e == strongest(effect@, pixels@, i as int),
        decreases pixels@.len() - i,
    {
        let here: u32 = effect[pixels[i]];
        if here > e {
            e = here;
        }
        i += 1;
    }
    e
}

proof fn lemma_ranked_may_be_logos(
    entries: Seq<PoolEntry>,
    w: int,
    h: int,
    video_size: VideoSize,
)
    requires
        may_be_logos(entries, w, h, video_size),
    ensures
        may_be_logos(ranking::ranked(entries), w, h, video_size),
{
    let all = ranking::ranked(entries);
    let n = entries.len() as int;
    assert forall|k: int| 0 <= k < all.len() implies may_be_logo(
        #[trigger] all[k],
        w,
        h,
        video_size,
    ) by {
        ranking::lemma_ranking_members(entries, n, k);
        let m = choose|m: int| 0 <= m < n && #[trigger] entries[m] == all[k];
        assert(may_be_logo(entries[m], w, h, video_size));
    }
}

fn find_rung_entries(
    w: usize,
    h: usize,
    maps: &EffectMaps,
    video_size: VideoSize,
    threshold: u32,
) -> (entries: Vec<PoolEntry>)
    requires
        maps.is_for(w * h),
        regions::is_picture(w as int, h as int),
    ensures
        entries@ == rung_entries(maps, w as int, h as int, video_size, threshold),
        may_be_logos(entries@, w as int, h as int, video_size),
{
    let n: usize = maps.effect.len();
    let ghost mask = maps.significant(threshold);
    let ghost all = rung_regions(
        mask,
        w as int,
        h as int,
        video_size.width,
        video_size.height,
    );
    let components: Vec<Component> = process_rung(w, h, maps, threshold, video_size);
    proof {
        assert(n == w * h);
        lemma_rung_regions(mask, w as int, h as int, video_size.width, video_size.height);
    }
    let mut entries: Vec<PoolEntry> = Vec::new();
    let mut i: usize = 0;
    while i < components.len()
        invariant
            n == maps.effect@.len() == w * h,
            all == regions::regions_of(components@),
            regions::are_inside(all, w as int, h as int),
            pixels_below(all, w * h),
            forall|k: int|
                0 <= k < all.len() ==> bbox::is_within_upper_bound(
                    (#[trigger] all[k]).bbox,
                    video_size.width,
                    video_size.height,
                ),
            forall|k: int|
                0 <= k < all.len() ==> bbox::is_above_lower_bound(
                    (#[trigger] all[k]).bbox,
                    all[k].pixels.len() as int,
                ),
            i <= components@.len(),
            entries@.len() == i,
            forall|k: int|
                0 <= k < i ==> #[trigger] entries@[k] == entry_of(
                    maps.effect@,
                    all[k],
                    threshold,
                ),
            may_be_logos(entries@, w as int, h as int, video_size),
        decreases components@.len() - i,
    {
        proof {
            assert(all[i as int] == components@[i as int]@);
            assert(regions::is_inside(all[i as int].bbox, w as int, h as int));
            assert forall|k: int| 0 <= k < components@[i as int].pixels@.len() implies
                #[trigger] components@[i as int].pixels@[k] < maps.effect@.len() by {
                assert(all[i as int].pixels[k] < w * h);
            }
        }
        entries.push(
            PoolEntry {
                bbox: components[i].bbox,
                max_effect: strongest_of(&maps.effect, &components[i].pixels),
                significant_pixels: components[i].pixels.len(),
                threshold,
            },
        );
        i += 1;
    }
    assert(entries@ =~= entries_of(maps.effect@, all, threshold));
    let mut ranked: Vec<PoolEntry> = ranking::rank(&entries);
    proof {
        ranking::ranking_is_in_order(entries@, entries@.len() as int);
        lemma_ranked_may_be_logos(entries@, w as int, h as int, video_size);
    }
    let ghost whole = ranked@;
    if ranked.len() > TOP_K_PER_RUNG {
        ranked.truncate(TOP_K_PER_RUNG);
    }
    proof {
        assert(ranked@ =~= rung_entries(maps, w as int, h as int, video_size, threshold));
        assert forall|k: int| 0 <= k < ranked@.len() implies may_be_logo(
            #[trigger] ranked@[k],
            w as int,
            h as int,
            video_size,
        ) by {
            assert(ranked@[k] == whole[k]);
        }
    }
    ranked
}

/// What tells entries apart: position and size, rounded.
pub open spec fn dedup_key(e: PoolEntry) -> (int, int, int, int) {
    (
        bbox::nearest_multiple(e.bbox.x_min as int, DEDUP_ROUND as int),
        bbox::nearest_multiple(e.bbox.y_min as int, DEDUP_ROUND as int),
        bbox::nearest_multiple(e.bbox.spec_width(), DEDUP_ROUND as int),
        bbox::nearest_multiple(e.bbox.spec_height(), DEDUP_ROUND as int),
    )
}

/// An entry that is hardly different is already there.
pub open spec fn has_twin(entries: Seq<PoolEntry>, e: PoolEntry) -> bool {
    exists|k: int| 0 <= k < entries.len() && dedup_key(#[trigger] entries[k]) == dedup_key(e)
}

/// The first `n` entries, without those that are hardly different from an earlier one.
pub open spec fn distinct(entries: Seq<PoolEntry>, n: int) -> Seq<PoolEntry>
    decreases n,
{
    if n <= 0 {
        Seq::empty()
    } else {
        let before = distinct(entries, n - 1);
        if has_twin(before, entries[n - 1]) {
            before
        } else {
            before.push(entries[n - 1])
        }
    }
}

proof fn lemma_rounding(v: int)
    requires
        0 <= v,
    ensures
        bbox::nearest_multiple(v, DEDUP_ROUND as int) <= v + 4,
{
    assert((2 * v + 8) / 16 * 8 <= v + 4);
}

fn keep_distinct(
    entries: &Vec<PoolEntry>,
    video_size: VideoSize,
    Ghost(w): Ghost<int>,
    Ghost(h): Ghost<int>,
) -> (r: Vec<PoolEntry>)
    requires
        w + 8 <= u32::MAX,
        h + 8 <= u32::MAX,
        may_be_logos(entries@, w, h, video_size),
    ensures
        r@ == distinct(entries@, entries@.len() as int),
        may_be_logos(r@, w, h, video_size),
{
    let mut r: Vec<PoolEntry> = Vec::new();
    let mut keys: Vec<(u32, u32, u32, u32)> = Vec::new();
    let mut i: usize = 0;
    while i < entries.len()
        invariant
            w + 8 <= u32::MAX,
            h + 8 <= u32::MAX,
            may_be_logos(entries@, w, h, video_size),
            i <= entries@.len(),
            r@ == distinct(entries@, i as int),
            may_be_logos(r@, w, h, video_size),
            keys@.len() == r@.len(),
            forall|k: int|
                0 <= k < keys@.len() ==> {
                    &&& (#[trigger] keys@[k]).0 == dedup_key(r@[k]).0
                    &&& keys@[k].1 == dedup_key(r@[k]).1
                    &&& keys@[k].2 == dedup_key(r@[k]).2
                    &&& keys@[k].3 == dedup_key(r@[k]).3
                },
        decreases entries@.len() - i,
    {
        let e: PoolEntry = entries[i];
        proof {
            assert(may_be_logo(entries@[i as int], w, h, video_size));
            lemma_rounding(e.bbox.x_min as int);
            lemma_rounding(e.bbox.y_min as int);
            lemma_rounding(e.bbox.spec_width());
            lemma_rounding(e.bbox.spec_height());
        }
        let key: (u32, u32, u32, u32) = (
            bbox::round_to(e.bbox.x_min, DEDUP_ROUND),
            bbox::round_to(e.bbox.y_min, DEDUP_ROUND),
            bbox::round_to(e.bbox.width(), DEDUP_ROUND),
            bbox::round_to(e.bbox.height(), DEDUP_ROUND),
        );
        let mut twin: bool = false;
        let mut k: usize = 0;
        while k < keys.len() && !twin
            invariant
                k <= keys@.len(),
                keys@.len() == r@.len(),
                key.0 == dedup_key(e).0,
                key.1 == dedup_key(e).1,
                key.2 == dedup_key(e).2,
                key.3 == dedup_key(e).3,
                forall|k: int|
                    0 <= k < keys@.len() ==> {
                        &&& (#[trigger] keys@[k]).0 == dedup_key(r@[k]).0
                        &&& keys@[k].1 == dedup_key(r@[k]).1
                        &&& keys@[k].2 == dedup_key(r@[k]).2
                        &&& keys@[k].3 == dedup_key(r@[k]).3
                    },
                twin ==> has_twin(r@, e),
                !twin ==> forall|j: int|
                    0 <= j < k ==> dedup_key(#[trigger] r@[j]) != dedup_key(e),
            decreases keys@.len() - k + (if twin {
                0int
            } else {
                1
            }),
        {
            let other: (u32, u32, u32, u32) = keys[k];
            if other.0 == key.0 && other.1 == key.1 && other.2 == key.2 && other.3 == key.3 {
                assert(dedup_key(r@[k as int]) == dedup_key(e));
                twin = true;
            } else {
                assert(keys@[k as int] == other);
                k += 1;
            }
        }
        if !twin {
            keys.push(key);
            r.push(e);
        }
        i += 1;
    }
    r
}

/// A place where a logo may be.
#[derive(Debug, Clone, Copy, PartialEq, Eq, Structural)]
pub struct Candidate {
    /// The rectangle to learn the logo from.
    pub estimated_rect: LogoRect,
    /// The rectangle of its pixels.
    pub raw_bbox: LogoRect,
    /// The strongest step of its pixels, as bits.
    pub max_effect: u32,
    pub significant_pixels: usize,
    /// The threshold that its pixels reach, as bits.
    pub rung_threshold: u32,
}

/// `a - b`, but not less than 0.
pub open spec fn less(a: int, b: int) -> int {
    if a > b {
        a - b
    } else {
        0
    }
}

/// The smaller of two numbers.
pub open spec fn smaller(a: int, b: int) -> int {
    if a < b {
        a
    } else {
        b
    }
}

/// A rectangle with the margin around it, as far as the picture goes.
pub open spec fn with_margin(b: Bbox, video_size: VideoSize) -> LogoRect {
    let x = less(b.x_min as int, RECT_MARGIN as int);
    let y = less(b.y_min as int, RECT_MARGIN as int);
    LogoRect {
        x: x as u32,
        y: y as u32,
        w: less(smaller(b.x_max + 1 + RECT_MARGIN, video_size.width as int), x) as u32,
        h: less(smaller(b.y_max + 1 + RECT_MARGIN, video_size.height as int), y) as u32,
    }
}

/// An entry as a candidate.
pub open spec fn candidate_of(e: PoolEntry, video_size: VideoSize) -> Candidate {
    Candidate {
        estimated_rect: scan::even_rect(with_margin(e.bbox, video_size)),
        raw_bbox: LogoRect {
            x: e.bbox.x_min,
            y: e.bbox.y_min,
            w: e.bbox.spec_width() as u32,
            h: e.bbox.spec_height() as u32,
        },
        max_effect: e.max_effect,
        significant_pixels: e.significant_pixels,
        rung_threshold: e.threshold,
    }
}

/// The entries of all thresholds that are not hardly different from an earlier one, by rank.
pub open spec fn final_entries(
    maps: &EffectMaps,
    w: int,
    h: int,
    video_size: VideoSize,
    ladder: Seq<u32>,
) -> Seq<PoolEntry> {
    let pooled = pool(maps, w, h, video_size, ladder, ladder.len() as int);
    let kept = distinct(pooled, pooled.len() as int);
    ranking::ranked(kept)
}

fn subtract(a: u32, b: u32) -> (r: u32)
    ensures
        r == less(a as int, b as int),
{
    if a > b {
        a - b
    } else {
        0
    }
}

fn minimum(a: u32, b: u32) -> (r: u32)
    ensures
        r == smaller(a as int, b as int),
{
    if a < b {
        a
    } else {
        b
    }
}

fn to_candidate(e: &PoolEntry, video_size: VideoSize) -> (c: Candidate)
    requires
        regions::is_bounded(e.bbox),
        e.bbox.x_max + 9 <= u32::MAX,
        e.bbox.y_max + 9 <= u32::MAX,
    ensures
        c == candidate_of(*e, video_size),
{
    let x: u32 = subtract(e.bbox.x_min, RECT_MARGIN);
    let y: u32 = subtract(e.bbox.y_min, RECT_MARGIN);
    let right: u32 = minimum(e.bbox.x_max + 1 + RECT_MARGIN, video_size.width);
    let bottom: u32 = minimum(e.bbox.y_max + 1 + RECT_MARGIN, video_size.height);
    let expanded = LogoRect { x, y, w: subtract(right, x), h: subtract(bottom, y) };
    let (estimated_rect, _message) = scan::round_rect_to_even(expanded);
    Candidate {
        estimated_rect,
        raw_bbox: LogoRect {
            x: e.bbox.x_min,
            y: e.bbox.y_min,
            w: e.bbox.width(),
            h: e.bbox.height(),
        },
        max_effect: e.max_effect,
        significant_pixels: e.significant_pixels,
        rung_threshold: e.threshold,
    }
}

/// The thresholds at which regions are looked for, from low to high: the bits of the
/// floating-point numbers 1.5, 3, 6, 12, 24, 48 and 96.
pub open spec fn ladder_bits() -> Seq<u32> {
    seq![
        0x3fc0_0000u32,
        0x4040_0000,
        0x40c0_0000,
        0x4140_0000,
        0x41c0_0000,
        0x4240_0000,
        0x42c0_0000,
    ]
}

/// The thresholds at which regions are looked for, from low to high.
pub fn threshold_ladder() -> (ladder: Vec<u32>)
    ensures
        ladder@ == ladder_bits(),
{
    let ladder: Vec<u32> = vec![
        0x3fc0_0000,
        0x4040_0000,
        0x40c0_0000,
        0x4140_0000,
        0x41c0_0000,
        0x4240_0000,
        0x42c0_0000,
    ];
    assert(ladder@ =~= ladder_bits());
    ladder
}

/// The places where a logo may be, the one with the strongest step first. `ladder` has the
/// thresholds, from low to high.
pub fn build_candidates(
    w: usize,
    h: usize,
    video_size: VideoSize,
    maps: &EffectMaps,
    ladder: &Vec<u32>,
) -> (candidates: Vec<Candidate>)
    requires
        maps.is_for(w * h),
        w + 8 <= u32::MAX,
        h + 8 <= u32::MAX,
    ensures
        candidates@ == final_entries(maps, w as int, h as int, video_size, ladder@).map_values(
            |e: PoolEntry| candidate_of(e, video_size),
        ),
        may_be_logos(
            final_entries(maps, w as int, h as int, video_size, ladder@),
            w as int,
            h as int,
            video_size,
        ),
{
    let ghost wi = w as int;
    let ghost hi = h as int;
    let mut pooled: Vec<PoolEntry> = Vec::new();
    let mut r: usize = 0;
    while r < ladder.len()
        invariant
            maps.is_for(w * h),
            w + 8 <= u32::MAX,
            h + 8 <= u32::MAX,
            wi == w,
            hi == h,
            r <= ladder@.len(),
            pooled@ == pool(maps, wi, hi, video_size, ladder@, r as int),
            may_be_logos(pooled@, wi, hi, video_size),
        decreases ladder@.len() - r,
    {
        let ghost before = pooled@;
        let mut entries: Vec<PoolEntry> = find_rung_entries(w, h, maps, video_size, ladder[r]);
        let ghost added = entries@;
        pooled.append(&mut entries);
        r += 1;
        proof {
            assert(pooled@ =~= pool(maps, wi, hi, video_size, ladder@, r as int));
            assert forall|k: int| 0 <= k < pooled@.len() implies may_be_logo(
                #[trigger] pooled@[k],
                wi,
                hi,
                video_size,
            ) by {
                if k < before.len() {
                    assert(pooled@[k] == before[k]);
                } else {
                    assert(pooled@[k] == added[k - before.len()]);
                }
            }
        }
    }
    let kept: Vec<PoolEntry> = keep_distinct(&pooled, video_size, Ghost(wi), Ghost(hi));
    let ranked: Vec<PoolEntry> = ranking::rank(&kept);
    proof {
        ranking::ranking_is_in_order(kept@, kept@.len() as int);
        lemma_ranked_may_be_logos(kept@, wi, hi, video_size);
    }
    let mut candidates: Vec<Candidate> = Vec::new();
    let mut i: usize = 0;
    while i < ranked.len()
        invariant
            w + 8 <= u32::MAX,
            h + 8 <= u32::MAX,
            wi == w,
            hi == h,
            may_be_logos(ranked@, wi, hi, video_size),
            i <= ranked@.len(),
            candidates@.len() == i,
            forall|k: int|
                0 <= k < i ==> #[trigger] candidates@[k] == candidate_of(ranked@[k], video_size),
        decreases ranked@.len() - i,
    {
        assert(may_be_logo(ranked@[i as int], wi, hi, video_size));
        candidates.push(to_candidate(&ranked[i], video_size));
        i += 1;
    }
    assert(candidates@ =~= final_entries(maps, wi, hi, video_size, ladder@).map_values(
        |e: PoolEntry| candidate_of(e, video_size),
    ));
    candidates
}

/// A candidate lies within the picture with its margin, and has the size that a logo may have.
pub proof fn candidate_has_the_size_of_a_logo(e: PoolEntry, video_size: VideoSize)
    requires
        may_be_logo(e, video_size.width as int, video_size.height as int, video_size),
    ensures
        candidate_of(e, video_size).estimated_rect.fits_in(video_size.width, video_size.height),
        candidate_of(e, video_size).raw_bbox.fits_in(video_size.width, video_size.height),
        5 * candidate_of(e, video_size).raw_bbox.w <= video_size.width,
        20 * candidate_of(e, video_size).raw_bbox.h <= 3 * video_size.height,
        candidate_of(e, video_size).raw_bbox.w >= bbox::MIN_SIDE,
        candidate_of(e, video_size).raw_bbox.h >= bbox::MIN_SIDE,
        candidate_of(e, video_size).significant_pixels >= bbox::MIN_AREA,
{
}

/// No two of the entries are hardly different.
pub open spec fn are_distinct(entries: Seq<PoolEntry>) -> bool {
    forall|i: int, j: int|
        0 <= i < j < entries.len() ==> dedup_key(#[trigger] entries[i]) != dedup_key(
            #[trigger] entries[j],
        )
}

proof fn lemma_distinct(entries: Seq<PoolEntry>, n: int)
    requires
        0 <= n <= entries.len(),
    ensures
        are_distinct(distinct(entries, n)),
    decreases n,
{
    if n > 0 {
        lemma_distinct(entries, n - 1);
    }
}

proof fn lemma_ranking_distinct(entries: Seq<PoolEntry>, n: int)
    requires
        0 <= n <= entries.len(),
        are_distinct(entries),
    ensures
        are_distinct(ranking::ranking(entries, n)),
        ranking::ranking(entries, n).len() == n,
        forall|k: int|
            0 <= k < n ==> entries.take(n).contains(#[trigger] ranking::ranking(entries, n)[k]),
    decreases n,
{
    if n > 0 {
        lemma_ranking_distinct(entries, n - 1);
        let ranked = ranking::ranking(entries, n - 1);
        let e = entries[n - 1];
        let at = ranking::place_for(ranked, e, 0);
        ranking::lemma_place_for(ranked, e, 0);
        let all = ranking::ranking(entries, n);
        let earlier = entries.take(n - 1);
        let here = entries.take(n);
        assert forall|k: int| 0 <= k < ranked.len() implies dedup_key(#[trigger] ranked[k])
            != dedup_key(e) && here.contains(ranked[k]) by {
            assert(earlier.contains(ranked[k]));
            let m = choose|m: int| 0 <= m < earlier.len() && earlier[m] == ranked[k];
            assert(dedup_key(entries[m]) != dedup_key(entries[n - 1]));
            assert(here[m] == ranked[k]);
        }
        assert(here[n - 1] == e);
        assert forall|k: int| 0 <= k < n implies here.contains(#[trigger] all[k]) by {
            if k < at {
                assert(all[k] == ranked[k]);
            } else if k > at {
                assert(all[k] == ranked[k - 1]);
            }
        }
        assert forall|i: int, j: int| 0 <= i < j < all.len() implies dedup_key(#[trigger] all[i])
            != dedup_key(#[trigger] all[j]) by {
            if j < at {
                assert(all[i] == ranked[i] && all[j] == ranked[j]);
            } else if j == at {
                assert(all[i] == ranked[i]);
            } else if i < at {
                assert(all[i] == ranked[i] && all[j] == ranked[j - 1]);
            } else if i == at {
                assert(all[j] == ranked[j - 1]);
            } else {
                assert(all[i] == ranked[i - 1] && all[j] == ranked[j - 1]);
            }
        }
    }
}

/// The strongest candidate comes first, and no two candidates are hardly different.
pub proof fn candidates_are_ranked_and_distinct(
    maps: &EffectMaps,
    w: int,
    h: int,
    video_size: VideoSize,
    ladder: Seq<u32>,
)
    ensures
        are_distinct(final_entries(maps, w, h, video_size, ladder)),
        forall|i: int, j: int|
            0 <= i < j < final_entries(maps, w, h, video_size, ladder).len() ==> (
            #[trigger] final_entries(maps, w, h, video_size, ladder)[i]).max_effect >= (
            #[trigger] final_entries(maps, w, h, video_size, ladder)[j]).max_effect,
{
    let pooled = pool(maps, w, h, video_size, ladder, ladder.len() as int);
    let kept = distinct(pooled, pooled.len() as int);
    lemma_distinct(pooled, pooled.len() as int);
    lemma_ranking_distinct(kept, kept.len() as int);
    ranking::ranking_is_in_order(kept, kept.len() as int);
    let all = final_entries(maps, w, h, video_size, ladder);
    assert forall|i: int, j: int| 0 <= i < j < all.len() implies (#[trigger] all[i]).max_effect >= (
    #[trigger] all[j]).max_effect by {
        assert(!all[j].before(all[i]));
    }
}

/// The frames of a video, read again, were not as many as before.
#[derive(Debug, Clone, Copy, PartialEq, Eq, Structural)]
pub enum FrameSupplyError {
    /// When the sums were made.
    Summing { total: u64, actual: u64 },
    /// When the candidates were measured.
    Measuring { total: u64, actual: u64 },
}

impl FrameSupplyError {
    /// The message for the user.
    pub open spec fn spec_message(self) -> Seq<char> {
        match self {
            FrameSupplyError::Summing { total, actual } => {
                "フレーム供給関数が1回目("@ + text::decimal(total as nat) + "枚)と2回目("@
                    + text::decimal(actual as nat)
                    + "枚)で異なる枚数を返しました。ブロック割当て（総標本数 × フレーム番号 / 16）は2回とも同じ枚数が流れることを前提にしており、食い違うと統計量が静かに歪みます。"@
            },
            FrameSupplyError::Measuring { total, actual } => {
                "フレーム供給関数がAUC採点用の3回目の呼び出しで"@ + text::decimal(actual as nat)
                    + "枚を返しましたが、1・2回目は"@ + text::decimal(total as nat)
                    + "枚でした。ブロック割当てと同じ理由で、3回とも同じ枚数が流れることを前提にしています。"@
            },
        }
    }

    /// The message for the user.
    pub fn message(&self) -> (m: String)
        ensures
            m@ == self.spec_message(),
    {
        let mut m = String::new();
        match self {
            FrameSupplyError::Summing { total, actual } => {
                m.append("フレーム供給関数が1回目(");
                text::push_u64(&mut m, *total);
                m.append("枚)と2回目(");
                text::push_u64(&mut m, *actual);
                m.append(
                    "枚)で異なる枚数を返しました。ブロック割当て（総標本数 × フレーム番号 / 16）は2回とも同じ枚数が流れることを前提にしており、食い違うと統計量が静かに歪みます。",
                );
            },
            FrameSupplyError::Measuring { total, actual } => {
                m.append("フレーム供給関数がAUC採点用の3回目の呼び出しで");
                text::push_u64(&mut m, *actual);
                m.append("枚を返しましたが、1・2回目は");
                text::push_u64(&mut m, *total);
                m.append(
                    "枚でした。ブロック割当てと同じ理由で、3回とも同じ枚数が流れることを前提にしています。",
                );
            },
        }
        assert(m@ =~= self.spec_message());
        m
    }
}

/// Checks that as many frames came when the sums were made as before.
pub fn check_summed(total: u64, actual: u64) -> (r: Result<(), FrameSupplyError>)
    ensures
        r == (if actual == total {
            Ok::<(), FrameSupplyError>(())
        } else {
            Err(FrameSupplyError::Summing { total, actual })
        }),
{
    if actual == total {
        Ok(())
    } else {
        Err(FrameSupplyError::Summing { total, actual })
    }
}

/// Checks that as many frames came when the candidates were measured as before.
pub fn check_measured(total: u64, actual: u64) -> (r: Result<(), FrameSupplyError>)
    ensures
        r == (if actual == total {
            Ok::<(), FrameSupplyError>(())
        } else {
            Err(FrameSupplyError::Measuring { total, actual })
        }),
{
    if actual == total {
        Ok(())
    } else {
        Err(FrameSupplyError::Measuring { total, actual })
    }
}

} // verus!
