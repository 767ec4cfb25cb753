//! Regions of pixels that stand out, and how they are merged.

use crate::logo::bbox;
use crate::logo::bbox::Bbox;
use crate::logo::connected;
use crate::logo::dilate;
use vstd::prelude::*;

verus! {

/// Regions with at most so many pixels between them are merged.
pub const MERGE_GAP: u32 = 16;

/// Pixels grow by so much to find large structures.
pub const DILATE_RADIUS: usize = 8;

/// A region of pixels that stand out.
pub struct Component {
    pub bbox: Bbox,
    pub pixels: Vec<usize>,
}

/// The contents of a [`Component`].
pub struct Region {
    pub bbox: Bbox,
    pub pixels: Seq<usize>,
}

impl View for Component {
    type V = Region;

    open spec fn view(&self) -> Region {
        Region { bbox: self.bbox, pixels: self.pixels@ }
    }
}

/// The contents of components.
pub open spec fn regions_of(components: Seq<Component>) -> Seq<Region> {
    components.map_values(|c: Component| c@)
}

/// The connected component that starts with pixel `p`.
pub open spec fn region_at(mask: Seq<bool>, w: int, p: int) -> Region {
    let pixels = connected::component(mask, w, p, mask.len() as int);
    Region { bbox: bbox::bounds(w, pixels), pixels }
}

/// The connected components of a mask, in the order of their first pixels.
pub open spec fn all_regions(mask: Seq<bool>, w: int) -> Seq<Region> {
    connected::firsts(mask, w, mask.len() as int).map_values(|p: int| region_at(mask, w, p))
}

/// The pixels of the components, by label, as far as the first `n` pixels go.
spec fn grouped(mask: Seq<bool>, w: int, groups: Seq<Vec<usize>>, n: int) -> bool {
    let all = connected::firsts(mask, w, n);
    &&& groups.len() == all.len()
    &&& forall|l: int|
        0 <= l < groups.len() ==> #[trigger] groups[l]@ == connected::component(
            mask,
            w,
            all[l],
            n,
        )
}

/// What a pixel adds to the components.
proof fn lemma_next_pixel(mask: Seq<bool>, w: int, labels: Seq<Option<usize>>, n: int)
    requires
        connected::is_labelling(mask, w, labels),
        0 <= n < mask.len(),
        mask.len() <= usize::MAX,
    ensures
        !mask[n] ==> connected::firsts(mask, w, n + 1) == connected::firsts(mask, w, n),
        mask[n] && labels[n]->0 < connected::firsts(mask, w, n).len() ==> connected::firsts(
            mask,
            w,
            n + 1,
        ) == connected::firsts(mask, w, n),
        mask[n] && labels[n]->0 >= connected::firsts(mask, w, n).len() ==> {
            &&& connected::firsts(mask, w, n + 1) == connected::firsts(mask, w, n).push(n)
            &&& labels[n]->0 == connected::firsts(mask, w, n).len()
        },
        forall|l: int|
            0 <= l < connected::firsts(mask, w, n).len() ==> (connected::connected(
                mask,
                w,
                #[trigger] connected::firsts(mask, w, n)[l],
                n,
            ) <==> mask[n] && labels[n]->0 == l),
{
    let all = connected::firsts(mask, w, mask.len() as int);
    let here = connected::firsts(mask, w, n);
    connected::lemma_firsts_prefix(mask, w, n, mask.len() as int);
    connected::lemma_firsts_prefix(mask, w, n + 1, mask.len() as int);
    assert forall|l: int| 0 <= l < here.len() implies (connected::connected(
        mask,
        w,
        #[trigger] here[l],
        n,
    ) <==> mask[n] && labels[n]->0 == l) by {
        assert(all[l] == here[l]);
        if connected::connected(mask, w, here[l], n) {
            connected::lemma_connected_is_set(mask, w, here[l], n);
            connected::label_of_connected_pixel(mask, w, labels, l, n);
        }
        if mask[n] && labels[n]->0 == l {
            assert(labels[n] is Some);
        }
    }
    if mask[n] {
        assert(labels[n] is Some);
        let l = labels[n]->0 as int;
        let p = all[l];
        if connected::is_first(mask, w, n) {
            let k = here.len() as int;
            assert(connected::firsts(mask, w, n + 1) == here.push(n));
            assert(all[k] == n);
            connected::lemma_connected_to_itself(mask, w, n);
            connected::label_of_connected_pixel(mask, w, labels, k, n);
        } else {
            assert(connected::firsts(mask, w, n + 1) == here);
            if l >= here.len() {
                connected::lemma_firsts_below(mask, w, mask.len() as int, l);
                assert(p >= n);
                connected::lemma_connected_symmetric(mask, w, p, n);
                if p > n {
                    assert(!connected::connected(mask, w, n, p));
                }
                assert(p == n);
            }
        }
    }
}

fn group_pixels(w: usize, h: usize, mask: &[bool]) -> (groups: Vec<Vec<usize>>)
    requires
        mask@.len() == w * h,
    ensures
        grouped(mask@, w as int, groups@, mask@.len() as int),
{
    let labels: Vec<Option<usize>> = connected::label_components(w, h, mask);
    let n: usize = mask.len();
    let ghost wi = w as int;
    let mut groups: Vec<Vec<usize>> = Vec::new();
    let mut i: usize = 0;
    while i < n
        invariant
            n == mask@.len(),
            wi == w,
            connected::is_labelling(mask@, wi, labels@),
            i <= n,
            grouped(mask@, wi, groups@, i as int),
        decreases n - i,
    {
        let ghost before = groups@;
        proof {
            assert(labels@[i as int] is Some <==> mask@[i as int]);
            lemma_next_pixel(mask@, wi, labels@, i as int);
        }
        if let Some(l) = labels[i] {
            if l < groups.len() {
                groups[l].push(i);
            } else {
                let mut group: Vec<usize> = Vec::new();
                group.push(i);
                proof {
                    let here = connected::firsts(mask@, wi, i as int);
                    assert(connected::is_first(mask@, wi, i as int)) by {
                        if !connected::is_first(mask@, wi, i as int) {
                            assert(here.push(i as int).len() == here.len());
                        }
                    }
                    connected::lemma_component_starts(mask@, wi, i as int, i as int);
                    connected::lemma_connected_to_itself(mask@, wi, i as int);
                }
                groups.push(group);
            }
        }
        proof {
            let all = connected::firsts(mask@, wi, i + 1);
            let here = connected::firsts(mask@, wi, i as int);
            assert forall|l: int| 0 <= l < groups@.len() implies #[trigger] groups@[l]@
                == connected::component(mask@, wi, all[l], i + 1) by {
                if l < before.len() {
                    assert(all[l] == here[l]);
                    assert(before[l]@ == connected::component(mask@, wi, here[l], i as int));
                }
            }
        }
        i += 1;
    }
    groups
}

/// A picture whose columns and rows are numbers of 32 bits.
pub open spec fn is_picture(w: int, h: int) -> bool {
    &&& 0 <= w < u32::MAX
    &&& 0 <= h < u32::MAX
}

/// Pixels of a picture have coordinates.
proof fn lemma_coordinates(w: int, h: int, pixels: Seq<usize>)
    requires
        is_picture(w, h),
        forall|k: int| 0 <= k < pixels.len() ==> #[trigger] pixels[k] < w * h,
        pixels.len() > 0,
    ensures
        bbox::has_coordinates(w, pixels),
{
    assert(pixels[0] < w * h);
    assert(w > 0) by (nonlinear_arith)
        requires
            w * h > 0,
            w >= 0,
            h >= 0,
    ;
    assert forall|k: int| 0 <= k < pixels.len() implies #[trigger] pixels[k] as int / w < u32::MAX
        && pixels[k] as int % w < u32::MAX by {
        dilate::lemma_at_of(pixels[k] as int, w, h);
    }
}

/// A bounding box whose ends are below the largest number.
pub open spec fn is_bounded(b: Bbox) -> bool {
    &&& b.x_min <= b.x_max < u32::MAX
    &&& b.y_min <= b.y_max < u32::MAX
}

/// The connected components of a mask, in the order of their first pixels.
pub fn label_to_components(w: usize, h: usize, mask: &[bool]) -> (components: Vec<Component>)
    requires
        mask@.len() == w * h,
        is_picture(w as int, h as int),
    ensures
        regions_of(components@) == all_regions(mask@, w as int),
        forall|k: int| 0 <= k < components@.len() ==> is_bounded(#[trigger] components@[k].bbox),
{
    let n: usize = mask.len();
    let ghost wi = w as int;
    let ghost all = connected::firsts(mask@, wi, n as int);
    let mut groups: Vec<Vec<usize>> = group_pixels(w, h, mask);
    let ghost pixels_by_label = groups@;
    let mut components: Vec<Component> = Vec::new();
    let count: usize = groups.len();
    let mut l: usize = 0;
    while l < count
        invariant
            n == mask@.len() == w * h,
            wi == w,
            is_picture(wi, h as int),
            all == connected::firsts(mask@, wi, n as int),
            count == groups@.len() == pixels_by_label.len(),
            grouped(mask@, wi, pixels_by_label, n as int),
            forall|k: int| l <= k < count ==> #[trigger] groups@[k] == pixels_by_label[k],
            l <= count,
            components@.len() == l,
            forall|k: int|
                0 <= k < l ==> (#[trigger] components@[k])@ == region_at(mask@, wi, all[k]),
            forall|k: int| 0 <= k < l ==> is_bounded(#[trigger] components@[k].bbox),
        decreases count - l,
    {
        let mut pixels: Vec<usize> = Vec::new();
        std::mem::swap(&mut pixels, &mut groups[l]);
        proof {
            assert(pixels@ == pixels_by_label[l as int]@);
            let p = all[l as int];
            connected::lemma_firsts_below(mask@, wi, n as int, l as int);
            connected::lemma_connected_to_itself(mask@, wi, p);
            connected::lemma_component_members(mask@, wi, p, n as int);
            assert(pixels@.contains(p as usize));
            lemma_coordinates(wi, h as int, pixels@);
            bbox::bounds_are_tight(wi, pixels@);
            lemma_bounded(wi, pixels@);
        }
        let b: Bbox = bbox::bbox_of(w, &pixels);
        components.push(Component { bbox: b, pixels });
        l += 1;
    }
    proof {
        assert(regions_of(components@) =~= all_regions(mask@, wi));
    }
    components
}

proof fn lemma_bounded(w: int, pixels: Seq<usize>)
    requires
        pixels.len() > 0,
        bbox::has_coordinates(w, pixels),
    ensures
        is_bounded(bbox::bounds(w, pixels)),
    decreases pixels.len(),
{
    let last = pixels.len() - 1;
    assert(pixels[last] as int / w < u32::MAX);
    assert(pixels[0] as int / w < u32::MAX);
    vstd::arithmetic::div_mod::lemma_mod_bound(pixels[last] as int, w);
    vstd::arithmetic::div_mod::lemma_div_pos_is_pos(pixels[last] as int, w);
    if pixels.len() > 1 {
        let fewer = pixels.drop_last();
        assert forall|k: int| 0 <= k < fewer.len() implies #[trigger] fewer[k] as int / w < u32::MAX
            && fewer[k] as int % w < u32::MAX by {
            assert(fewer[k] == pixels[k]);
        }
        lemma_bounded(w, fewer);
    }
}

/// Two regions are close, and together no larger than a logo may be.
pub open spec fn may_merge(a: Region, b: Region, video_w: u32, video_h: u32) -> bool {
    &&& bbox::are_close(a.bbox, b.bbox, MERGE_GAP)
    &&& bbox::is_within_upper_bound(a.bbox.spec_union(&b.bbox), video_w, video_h)
}

/// The first two regions that may merge, from regions `i` and `j` on; pairs are ordered by the
/// earlier and then by the later region.
pub open spec fn pair_from(
    regions: Seq<Region>,
    video_w: u32,
    video_h: u32,
    i: int,
    j: int,
) -> Option<(int, int)>
    decreases regions.len() - i, regions.len() - j,
{
    if i >= regions.len() {
        None
    } else if j >= regions.len() {
        pair_from(regions, video_w, video_h, i + 1, i + 2)
    } else if may_merge(regions[i], regions[j], video_w, video_h) {
        Some((i, j))
    } else {
        pair_from(regions, video_w, video_h, i, j + 1)
    }
}

/// Region `j` becomes a part of region `i`.
pub open spec fn merge_pair(regions: Seq<Region>, i: int, j: int) -> Seq<Region> {
    let both = Region {
        bbox: regions[i].bbox.spec_union(&regions[j].bbox),
        pixels: regions[i].pixels + regions[j].pixels,
    };
    regions.remove(j).update(i, both)
}

/// Regions are merged, the first two that may merge each time, until no two may merge.
pub open spec fn merged(regions: Seq<Region>, video_w: u32, video_h: u32) -> Seq<Region>
    decreases regions.len(),
{
    match pair_from(regions, video_w, video_h, 0, 1) {
        None => regions,
        Some((i, j)) => if 0 <= i < j < regions.len() {
            merged(merge_pair(regions, i, j), video_w, video_h)
        } else {
            regions
        },
    }
}

proof fn lemma_pair_from(regions: Seq<Region>, video_w: u32, video_h: u32, i: int, j: int)
    requires
        0 <= i < j,
    ensures
        match pair_from(regions, video_w, video_h, i, j) {
            Some((a, b)) => {
                &&& i <= a < b < regions.len()
                &&& may_merge(regions[a], regions[b], video_w, video_h)
            },
            None => forall|a: int, b: int|
                i <= a < b < regions.len() && (a > i || b >= j) ==> !#[trigger] may_merge(
                    regions[a],
                    regions[b],
                    video_w,
                    video_h,
                ),
        },
    decreases regions.len() - i, regions.len() - j,
{
    if i >= regions.len() {
    } else if j >= regions.len() {
        lemma_pair_from(regions, video_w, video_h, i + 1, i + 2);
    } else if may_merge(regions[i], regions[j], video_w, video_h) {
    } else {
        lemma_pair_from(regions, video_w, video_h, i, j + 1);
    }
}

/// After merging no two regions may merge any more.
pub proof fn nothing_is_left_to_merge(
    regions: Seq<Region>,
    video_w: u32,
    video_h: u32,
    a: int,
    b: int,
)
    requires
        0 <= a < b < merged(regions, video_w, video_h).len(),
    ensures
        !may_merge(
            merged(regions, video_w, video_h)[a],
            merged(regions, video_w, video_h)[b],
            video_w,
            video_h,
        ),
    decreases regions.len(),
{
    lemma_pair_from(regions, video_w, video_h, 0, 1);
    match pair_from(regions, video_w, video_h, 0, 1) {
        None => {
            assert(!may_merge(regions[a], regions[b], video_w, video_h));
        },
        Some((i, j)) => {
            nothing_is_left_to_merge(merge_pair(regions, i, j), video_w, video_h, a, b);
        },
    }
}

/// Some region has pixel `p`.
pub open spec fn covers_pixel(regions: Seq<Region>, p: usize) -> bool {
    exists|k: int| 0 <= k < regions.len() && (#[trigger] regions[k]).pixels.contains(p)
}

/// Merging neither loses nor adds pixels.
pub proof fn merging_keeps_pixels(regions: Seq<Region>, video_w: u32, video_h: u32, p: usize)
    ensures
        covers_pixel(merged(regions, video_w, video_h), p) <==> covers_pixel(regions, p),
    decreases regions.len(),
{
    lemma_pair_from(regions, video_w, video_h, 0, 1);
    match pair_from(regions, video_w, video_h, 0, 1) {
        None => {},
        Some((i, j)) => {
            let next = merge_pair(regions, i, j);
            merging_keeps_pixels(next, video_w, video_h, p);
            let pi = regions[i].pixels;
            let pj = regions[j].pixels;
            let both = pi + pj;
            if covers_pixel(regions, p) {
                let k = choose|k: int|
                    0 <= k < regions.len() && (#[trigger] regions[k]).pixels.contains(p);
                if k == i {
                    let q = choose|q: int| 0 <= q < pi.len() && pi[q] == p;
                    assert(both[q] == p);
                    assert(next[i].pixels.contains(p));
                } else if k == j {
                    let q = choose|q: int| 0 <= q < pj.len() && pj[q] == p;
                    assert(both[pi.len() + q] == p);
                    assert(next[i].pixels.contains(p));
                } else if k < j {
                    assert(next[k] == regions[k]);
                    assert(next[k].pixels.contains(p));
                } else {
                    assert(next[k - 1] == regions[k]);
                    assert(next[k - 1].pixels.contains(p));
                }
            }
            if covers_pixel(next, p) {
                let k = choose|k: int|
                    0 <= k < next.len() && (#[trigger] next[k]).pixels.contains(p);
                if k == i {
                    let q = choose|q: int| 0 <= q < both.len() && both[q] == p;
                    if q < pi.len() {
                        assert(pi[q] == p);
                        assert(regions[i].pixels.contains(p));
                    } else {
                        assert(pj[q - pi.len()] == p);
                        assert(regions[j].pixels.contains(p));
                    }
                } else if k < j {
                    assert(regions[k].pixels.contains(p));
                } else {
                    assert(regions[k + 1].pixels.contains(p));
                }
            }
        },
    }
}

fn find_pair(components: &Vec<Component>, video_w: u32, video_h: u32) -> (pair: Option<
    (usize, usize),
>)
    requires
        forall|k: int| 0 <= k < components@.len() ==> is_bounded(#[trigger] components@[k].bbox),
    ensures
        match pair {
            Some((i, j)) => pair_from(regions_of(components@), video_w, video_h, 0, 1) == Some(
                (i as int, j as int),
            ) && i < j < components@.len(),
            None => pair_from(regions_of(components@), video_w, video_h, 0, 1) is None,
        },
{
    let n: usize = components.len();
    let ghost regions = regions_of(components@);
    let mut i: usize = 0;
    while i < n
        invariant
            forall|k: int|
                0 <= k < components@.len() ==> is_bounded(#[trigger] components@[k].bbox),
            regions == regions_of(components@),
            n == components@.len(),
            i <= n,
            pair_from(regions, video_w, video_h, 0, 1) == pair_from(
                regions,
                video_w,
                video_h,
                i as int,
                i + 1,
            ),
        decreases n - i,
    {
        let mut j: usize = i + 1;
        while j < n
            invariant
                forall|k: int|
                    0 <= k < components@.len() ==> is_bounded(#[trigger] components@[k].bbox),
                regions == regions_of(components@),
                n == components@.len(),
                i < j <= n,
                pair_from(regions, video_w, video_h, 0, 1) == pair_from(
                    regions,
                    video_w,
                    video_h,
                    i as int,
                    j as int,
                ),
            decreases n - j,
        {
            let a: Bbox = components[i].bbox;
            let b: Bbox = components[j].bbox;
            assert(regions[i as int].bbox == a && regions[j as int].bbox == b);
            if bbox::close_enough(a, b, MERGE_GAP) && bbox::passes_upper_bound(
                a.union(&b),
                video_w,
                video_h,
            ) {
                return Some((i, j));
            }
            j += 1;
        }
        i += 1;
    }
    None
}

/// Merges regions that are close, as long as what comes out is no larger than a logo may be.
pub fn greedy_merge(components: Vec<Component>, video_w: u32, video_h: u32) -> (r: Vec<Component>)
    requires
        forall|k: int| 0 <= k < components@.len() ==> is_bounded(#[trigger] components@[k].bbox),
    ensures
        regions_of(r@) == merged(regions_of(components@), video_w, video_h),
        forall|k: int| 0 <= k < r@.len() ==> is_bounded(#[trigger] r@[k].bbox),
{
    let mut left: Vec<Component> = components;
    loop
        invariant
            forall|k: int|
                0 <= k < left@.len() ==> is_bounded(#[trigger] left@[k].bbox),
            merged(regions_of(left@), video_w, video_h) == merged(
                regions_of(components@),
                video_w,
                video_h,
            ),
        decreases left@.len(),
    {
        let ghost before = left@;
        match find_pair(&left, video_w, video_h) {
            None => return left,
            Some((i, j)) => {
                let mut other: Component = left.remove(j);
                let both: Bbox = left[i].bbox.union(&other.bbox);
                left[i].bbox = both;
                left[i].pixels.append(&mut other.pixels);
                proof {
                    assert(before[i as int].bbox == regions_of(before)[i as int].bbox);
                    assert(regions_of(left@) =~= merge_pair(
                        regions_of(before),
                        i as int,
                        j as int,
                    ));
                    assert forall|k: int| 0 <= k < left@.len() implies is_bounded(
                        #[trigger] left@[k].bbox,
                    ) by {
                        assert(is_bounded(before[i as int].bbox));
                        assert(is_bounded(before[j as int].bbox));
                        if k < j && k != i {
                            assert(left@[k] == before[k]);
                        } else if k != i {
                            assert(left@[k] == before[k + 1]);
                        }
                    }
                }
            },
        }
    }
}

/// A mask with its set pixels grown, see [`DILATE_RADIUS`].
pub open spec fn grown(mask: Seq<bool>, w: int, h: int) -> Seq<bool> {
    Seq::new(
        mask.len(),
        |i: int| dilate::near_set_pixel(mask, w, h, DILATE_RADIUS as int, i % w, i / w),
    )
}

/// The set pixels below `n` of a mask that are connected to pixel `p` once all are grown, in
/// ascending order.
pub open spec fn structure(mask: Seq<bool>, wide: Seq<bool>, w: int, p: int, n: int) -> Seq<usize>
    decreases n,
{
    if n <= 0 {
        Seq::empty()
    } else if mask[n - 1] && connected::connected(wide, w, p, n - 1) {
        structure(mask, wide, w, p, n - 1).push((n - 1) as usize)
    } else {
        structure(mask, wide, w, p, n - 1)
    }
}

/// Pixel `i` is set and belongs to a structure that is no larger than a logo may be.
pub open spec fn in_small_structure(
    mask: Seq<bool>,
    w: int,
    h: int,
    video_w: u32,
    video_h: u32,
    i: int,
) -> bool {
    &&& mask[i]
    &&& bbox::is_within_upper_bound(
        bbox::bounds(w, structure(mask, grown(mask, w, h), w, i, mask.len() as int)),
        video_w,
        video_h,
    )
}

/// A mask without the pixels of structures that are larger than a logo may be.
pub open spec fn without_large(
    mask: Seq<bool>,
    w: int,
    h: int,
    video_w: u32,
    video_h: u32,
) -> Seq<bool> {
    Seq::new(mask.len(), |i: int| in_small_structure(mask, w, h, video_w, video_h, i))
}

/// The set pixels below `n` with a label, in ascending order.
spec fn labelled_pixels(
    mask: Seq<bool>,
    labels: Seq<Option<usize>>,
    l: usize,
    n: int,
) -> Seq<usize>
    decreases n,
{
    if n <= 0 {
        Seq::empty()
    } else if mask[n - 1] && labels[n - 1] == Some(l) {
        labelled_pixels(mask, labels, l, n - 1).push((n - 1) as usize)
    } else {
        labelled_pixels(mask, labels, l, n - 1)
    }
}

proof fn lemma_labelled_pixels_below(
    mask: Seq<bool>,
    labels: Seq<Option<usize>>,
    l: usize,
    n: int,
)
    requires
        0 <= n <= usize::MAX,
    ensures
        forall|k: int|
            0 <= k < labelled_pixels(mask, labels, l, n).len() ==> #[trigger] labelled_pixels(
                mask,
                labels,
                l,
                n,
            )[k] < n,
    decreases n,
{
    if n > 0 {
        lemma_labelled_pixels_below(mask, labels, l, n - 1);
        let fewer = labelled_pixels(mask, labels, l, n - 1);
        let all = labelled_pixels(mask, labels, l, n);
        assert forall|k: int| 0 <= k < all.len() implies #[trigger] all[k] < n by {
            if k < fewer.len() {
                assert(all[k] == fewer[k]);
            }
        }
    }
}

/// The pixels with the label of pixel `p` are the structure of pixel `p`.
proof fn lemma_structure_by_label(
    mask: Seq<bool>,
    wide: Seq<bool>,
    w: int,
    labels: Seq<Option<usize>>,
    p: int,
    n: int,
)
    requires
        wide.len() == mask.len(),
        connected::is_labelling(wide, w, labels),
        forall|i: int| 0 <= i < mask.len() && #[trigger] mask[i] ==> wide[i],
        0 <= p < mask.len(),
        mask[p],
        0 <= n <= mask.len(),
    ensures
        labels[p] is Some,
        labelled_pixels(mask, labels, labels[p]->0, n) == structure(mask, wide, w, p, n),
    decreases n,
{
    assert(labels[p] is Some);
    if n > 0 {
        lemma_structure_by_label(mask, wide, w, labels, p, n - 1);
        if mask[n - 1] {
            connected::same_label_means_connected(wide, w, labels, p, n - 1);
        }
    }
}

/// A set pixel lies near a set pixel: itself.
proof fn lemma_grown_keeps(mask: Seq<bool>, w: int, h: int, i: int)
    requires
        mask.len() == w * h,
        w > 0,
        0 <= i < mask.len(),
        mask[i],
    ensures
        grown(mask, w, h)[i],
{
    dilate::lemma_at_of(i, w, h);
    assert(mask[dilate::at(i % w, i / w, w)]);
}

/// Which labels stand for structures that are no larger than a logo may be.
fn small_structures(
    w: usize,
    h: usize,
    mask: &Vec<bool>,
    labels: &Vec<Option<usize>>,
    video_w: u32,
    video_h: u32,
) -> (keep: Vec<bool>)
    requires
        mask@.len() == w * h,
        is_picture(w as int, h as int),
        labels@.len() == mask@.len(),
    ensures
        forall|i: int|
            0 <= i < mask@.len() && mask@[i] && (#[trigger] labels@[i] is Some) ==> {
                &&& labels@[i]->0 < keep@.len()
                &&& keep@[labels@[i]->0 as int] == bbox::is_within_upper_bound(
                    bbox::bounds(
                        w as int,
                        labelled_pixels(mask@, labels@, labels@[i]->0, mask@.len() as int),
                    ),
                    video_w,
                    video_h,
                )
            },
{
    let n: usize = mask.len();
    let mut groups: Vec<Vec<usize>> = Vec::new();
    let mut i: usize = 0;
    while i < n
        invariant
            n == mask@.len() == labels@.len(),
            i <= n,
            forall|l: int|
                0 <= l < groups@.len() ==> #[trigger] groups@[l]@ == labelled_pixels(
                    mask@,
                    labels@,
                    l as usize,
                    i as int,
                ),
            forall|k: int|
                0 <= k < i && mask@[k] && (#[trigger] labels@[k] is Some) ==> labels@[k]->0
                    < groups@.len(),
            forall|l: usize|
                l >= groups@.len() ==> #[trigger] labelled_pixels(mask@, labels@, l, i as int)
                    == Seq::<usize>::empty(),
        decreases n - i,
    {
        if mask[i] {
            if let Some(l) = labels[i] {
                while groups.len() <= l
                    invariant
                        n == mask@.len() == labels@.len(),
                        i < n,
                        forall|m: int|
                            0 <= m < groups@.len() ==> #[trigger] groups@[m]@ == labelled_pixels(
                                mask@,
                                labels@,
                                m as usize,
                                i as int,
                            ),
                        forall|m: usize|
                            m >= groups@.len() ==> #[trigger] labelled_pixels(
                                mask@,
                                labels@,
                                m,
                                i as int,
                            ) == Seq::<usize>::empty(),
                        forall|k: int|
                            0 <= k < i && mask@[k] && (#[trigger] labels@[k] is Some)
                                ==> labels@[k]->0 < groups@.len(),
                    decreases l + 1 - groups@.len(),
                {
                    let ghost size = groups@.len() as usize;
                    assert(labelled_pixels(mask@, labels@, size, i as int) == Seq::<
                        usize,
                    >::empty());
                    groups.push(Vec::new());
                }
                groups[l].push(i);
            }
        }
        proof {
            assert forall|l: usize| l >= groups@.len() implies #[trigger] labelled_pixels(
                mask@,
                labels@,
                l,
                i + 1,
            ) == Seq::<usize>::empty() by {
                assert(labelled_pixels(mask@, labels@, l, i as int) == Seq::<usize>::empty());
            }
        }
        i += 1;
    }
    let count: usize = groups.len();
    let mut keep: Vec<bool> = Vec::new();
    let mut l: usize = 0;
    while l < count
        invariant
            n == mask@.len() == labels@.len() == w * h,
            is_picture(w as int, h as int),
            count == groups@.len(),
            l <= count,
            forall|m: int|
                0 <= m < groups@.len() ==> #[trigger] groups@[m]@ == labelled_pixels(
                    mask@,
                    labels@,
                    m as usize,
                    n as int,
                ),
            keep@.len() == l,
            forall|m: int|
                0 <= m < l && groups@[m]@.len() > 0 ==> #[trigger] keep@[m]
                    == bbox::is_within_upper_bound(
                    bbox::bounds(w as int, groups@[m]@),
                    video_w,
                    video_h,
                ),
        decreases count - l,
    {
        if groups[l].len() == 0 {
            keep.push(true);
        } else {
            proof {
                assert(groups@[l as int]@ == labelled_pixels(mask@, labels@, l, n as int));
                lemma_labelled_pixels_below(mask@, labels@, l, n as int);
                lemma_coordinates(w as int, h as int, groups@[l as int]@);
            }
            keep.push(bbox::passes_upper_bound(bbox::bbox_of(w, &groups[l]), video_w, video_h));
        }
        l += 1;
    }
    proof {
        assert forall|k: int| 0 <= k < mask@.len() && mask@[k] && (#[trigger] labels@[k] is Some) implies {
            &&& labels@[k]->0 < keep@.len()
            &&& keep@[labels@[k]->0 as int] == bbox::is_within_upper_bound(
                bbox::bounds(
                    w as int,
                    labelled_pixels(mask@, labels@, labels@[k]->0, mask@.len() as int),
                ),
                video_w,
                video_h,
            )
        } by {
            let l = labels@[k]->0;
            lemma_labelled_pixel_counts(mask@, labels@, k, n as int);
            assert(groups@[l as int]@ == labelled_pixels(mask@, labels@, l, n as int));
            assert(keep@[l as int] == bbox::is_within_upper_bound(
                bbox::bounds(w as int, groups@[l as int]@),
                video_w,
                video_h,
            ));
        }
    }
    keep
}

proof fn lemma_labelled_pixel_counts(mask: Seq<bool>, labels: Seq<Option<usize>>, k: int, n: int)
    requires
        0 <= k < n,
        mask[k],
        labels[k] is Some,
    ensures
        labelled_pixels(mask, labels, labels[k]->0, n).len() > 0,
    decreases n,
{
    if k < n - 1 {
        lemma_labelled_pixel_counts(mask, labels, k, n - 1);
    }
}

/// Removes the pixels of structures that are larger than a logo may be.
pub fn remove_large(w: usize, h: usize, mask: &Vec<bool>, video_w: u32, video_h: u32) -> (r: Vec<
    bool,
>)
    requires
        mask@.len() == w * h,
        is_picture(w as int, h as int),
    ensures
        r@ == without_large(mask@, w as int, h as int, video_w, video_h),
{
    let n: usize = mask.len();
    let ghost wi = w as int;
    let ghost hi = h as int;
    let wide: Vec<bool> = dilate::dilate(w, h, mask.as_slice(), DILATE_RADIUS);
    proof {
        assert forall|i: int| 0 <= i < n implies wide@[i] == grown(mask@, wi, hi)[i] by {
            assert(w > 0) by (nonlinear_arith)
                requires
                    w * h > 0,
                    w >= 0,
                    h >= 0,
            ;
            dilate::lemma_at_of(i, wi, hi);
            assert(wide@[dilate::at(i % wi, i / wi, wi)] == dilate::near_set_pixel(
                mask@,
                wi,
                hi,
                DILATE_RADIUS as int,
                i % wi,
                i / wi,
            ));
        }
        assert(wide@ =~= grown(mask@, wi, hi));
    }
    let labels: Vec<Option<usize>> = connected::label_components(w, h, wide.as_slice());
    let keep: Vec<bool> = small_structures(w, h, mask, &labels, video_w, video_h);
    let mut r: Vec<bool> = Vec::new();
    let mut i: usize = 0;
    while i < n
        invariant
            n == mask@.len() == w * h,
            wi == w,
            hi == h,
            wide@ == grown(mask@, wi, hi),
            connected::is_labelling(wide@, wi, labels@),
            labels@.len() == n,
            forall|i: int|
                0 <= i < mask@.len() && mask@[i] && (#[trigger] labels@[i] is Some) ==> {
                    &&& labels@[i]->0 < keep@.len()
                    &&& keep@[labels@[i]->0 as int] == bbox::is_within_upper_bound(
                        bbox::bounds(
                            wi,
                            labelled_pixels(mask@, labels@, labels@[i]->0, mask@.len() as int),
                        ),
                        video_w,
                        video_h,
                    )
                },
            i <= n,
            r@.len() == i,
            forall|k: int|
                0 <= k < i ==> #[trigger] r@[k] == in_small_structure(
                    mask@,
                    wi,
                    hi,
                    video_w,
                    video_h,
                    k,
                ),
        decreases n - i,
    {
        let mut kept: bool = false;
        if mask[i] {
            proof {
                assert(w > 0) by (nonlinear_arith)
                    requires
                        w * h > 0,
                        w >= 0,
                        h >= 0,
                ;
                assert forall|j: int| 0 <= j < mask@.len() && #[trigger] mask@[j] implies wide@[j] by {
                    lemma_grown_keeps(mask@, wi, hi, j);
                }
                lemma_structure_by_label(mask@, wide@, wi, labels@, i as int, n as int);
            }
            if let Some(l) = labels[i] {
                kept = keep[l];
            }
        }
        r.push(kept);
        i += 1;
    }
    assert(r@ =~= without_large(mask@, wi, hi, video_w, video_h));
    r
}

/// A bounding box lies within a picture.
pub open spec fn is_inside(b: Bbox, w: int, h: int) -> bool {
    &&& b.x_min <= b.x_max < w
    &&& b.y_min <= b.y_max < h
}

/// All regions lie within a picture.
pub open spec fn are_inside(regions: Seq<Region>, w: int, h: int) -> bool {
    forall|k: int| 0 <= k < regions.len() ==> is_inside(#[trigger] regions[k].bbox, w, h)
}

/// The components of a mask lie within the picture.
pub proof fn regions_lie_in_picture(mask: Seq<bool>, w: int, h: int)
    requires
        mask.len() == w * h,
        mask.len() <= usize::MAX,
        is_picture(w, h),
    ensures
        are_inside(all_regions(mask, w), w, h),
{
    let n = mask.len() as int;
    let all = connected::firsts(mask, w, n);
    let regions = all_regions(mask, w);
    assert forall|k: int| 0 <= k < regions.len() implies is_inside(
        #[trigger] regions[k].bbox,
        w,
        h,
    ) by {
        let p = all[k];
        let pixels = connected::component(mask, w, p, n);
        connected::lemma_firsts_below(mask, w, n, k);
        connected::lemma_connected_to_itself(mask, w, p);
        connected::lemma_component_members(mask, w, p, n);
        assert(pixels.contains(p as usize));
        lemma_coordinates(w, h, pixels);
        bbox::bounds_are_tight(w, pixels);
        lemma_bounded(w, pixels);
        let b = bbox::bounds(w, pixels);
        let a = choose|a: int| 0 <= a < pixels.len() && #[trigger] pixels[a] as int % w == b.x_max;
        let c = choose|c: int| 0 <= c < pixels.len() && #[trigger] pixels[c] as int / w == b.y_max;
        assert(bbox::has_column(w, pixels, b.x_max));
        assert(bbox::has_row(w, pixels, b.y_max));
        dilate::lemma_at_of(pixels[a] as int, w, h);
        dilate::lemma_at_of(pixels[c] as int, w, h);
    }
}

/// Merged regions lie within the picture.
pub proof fn merged_regions_lie_in_picture(
    regions: Seq<Region>,
    video_w: u32,
    video_h: u32,
    w: int,
    h: int,
)
    requires
        are_inside(regions, w, h),
    ensures
        are_inside(merged(regions, video_w, video_h), w, h),
    decreases regions.len(),
{
    lemma_pair_from(regions, video_w, video_h, 0, 1);
    match pair_from(regions, video_w, video_h, 0, 1) {
        None => {},
        Some((i, j)) => {
            let next = merge_pair(regions, i, j);
            assert forall|k: int| 0 <= k < next.len() implies is_inside(
                #[trigger] next[k].bbox,
                w,
                h,
            ) by {
                assert(is_inside(regions[i].bbox, w, h));
                assert(is_inside(regions[j].bbox, w, h));
                if k < j && k != i {
                    assert(next[k] == regions[k]);
                } else if k != i {
                    assert(next[k] == regions[k + 1]);
                }
            }
            merged_regions_lie_in_picture(next, video_w, video_h, w, h);
        },
    }
}

} // verus!
