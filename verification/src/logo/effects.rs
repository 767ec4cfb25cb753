//! The steps at the pixels of a picture, from what is measured at each pixel.
//!
//! At a pixel the steps to the right and below are measured, block of frames by block of frames.
//! Their medians are floating-point numbers and are computed elsewhere; here each is given as a
//! magnitude, in bits that are ordered as the numbers are, and a sign.

use crate::logo::blocks;
use crate::logo::blocks::BORDER_MARGIN;
use crate::logo::estimate::EffectMaps;
use crate::logo::select;
use crate::logo::select::sign_agreement;
use vstd::prelude::*;

verus! {

/// The step at a pixel in one direction.
pub struct DirectionEffect {
    /// The magnitude of the median over the blocks, as the bits of a number that is not negative.
    pub magnitude: u32,
    /// The sign of the median: 1, 0 or -1.
    pub median_sign: i8,
    /// The sign of each block: 1, 0 or -1.
    pub signs: Vec<i8>,
}

/// The steps at a pixel.
pub struct PixelEffect {
    /// The step to the right.
    pub across: DirectionEffect,
    /// The step below.
    pub down: DirectionEffect,
}

impl DirectionEffect {
    /// The step mostly has the same sign.
    pub open spec fn is_steady(&self) -> bool {
        select::is_sign_agreed(self.signs@, self.median_sign)
    }
}

impl PixelEffect {
    /// The direction in which the step is stronger: to the right where both are alike.
    pub open spec fn stronger(&self) -> DirectionEffect {
        if self.across.magnitude >= self.down.magnitude {
            self.across
        } else {
            self.down
        }
    }
}

/// `maps` has at pixel `i` what was measured there. A pixel where nothing was measured cannot
/// belong to a logo.
pub open spec fn is_mapped(maps: EffectMaps, i: int, measured: Option<PixelEffect>) -> bool {
    match measured {
        Some(p) => {
            &&& maps.effect@[i] == p.stronger().magnitude
            &&& maps.sign_agrees@[i] == p.stronger().is_steady()
            &&& maps.valid@[i]
        },
        None => {
            &&& maps.effect@[i] == 0
            &&& !maps.sign_agrees@[i]
            &&& !maps.valid@[i]
        },
    }
}

/// `maps` has at pixel `i` what `measure` finds there, or nothing near the border.
pub open spec fn is_measured<F: Fn(usize) -> Option<PixelEffect>>(
    measure: F,
    w: int,
    h: int,
    maps: EffectMaps,
    i: int,
) -> bool {
    if blocks::is_interior(w, h, i) {
        exists|measured: Option<PixelEffect>| #[trigger]
            measure.ensures((i as usize,), measured) && is_mapped(maps, i, measured)
    } else {
        is_mapped(maps, i, None)
    }
}

/// Measures the steps at all pixels that are not near the border. `measure` finds the steps at a
/// pixel, or nothing where the pixel never changes and is dark.
pub fn build_effect_maps<F: Fn(usize) -> Option<PixelEffect>>(
    w: usize,
    h: usize,
    measure: F,
) -> (maps: EffectMaps)
    requires
        w * h <= usize::MAX,
        forall|i: usize|
            i < w * h && blocks::is_interior(w as int, h as int, i as int)
                ==> #[trigger] measure.requires((i,)),
    ensures
        maps.is_for(w * h),
        forall|i: int|
            0 <= i < w * h ==> #[trigger] is_measured(measure, w as int, h as int, maps, i),
{
    let n: usize = w * h;
    let border: usize = BORDER_MARGIN as usize;
    let mut maps = EffectMaps { effect: Vec::new(), sign_agrees: Vec::new(), valid: Vec::new() };
    let mut i: usize = 0;
    while i < n
        invariant
            n == w * h,
            border == BORDER_MARGIN,
            forall|j: usize|
                j < w * h && blocks::is_interior(w as int, h as int, j as int)
                    ==> #[trigger] measure.requires((j,)),
            i <= n,
            maps.is_for(i as int),
            forall|j: int|
                0 <= j < i ==> #[trigger] is_measured(measure, w as int, h as int, maps, j),
        decreases n - i,
    {
        let ghost before = maps;
        proof {
            assert(w > 0) by (nonlinear_arith)
                requires
                    w * h > 0,
                    w >= 0,
                    h >= 0,
            ;
        }
        let x: usize = i % w;
        let y: usize = i / w;
        let interior: bool = w > border && h > border && border <= x && x < w - border && border
            <= y && y < h - border;
        assert(interior == blocks::is_interior(w as int, h as int, i as int));
        let measured: Option<PixelEffect> = if interior {
            measure(i)
        } else {
            None
        };
        match &measured {
            Some(p) => {
                let stronger: &DirectionEffect = if p.across.magnitude >= p.down.magnitude {
                    &p.across
                } else {
                    &p.down
                };
                maps.effect.push(stronger.magnitude);
                maps.sign_agrees.push(sign_agreement(&stronger.signs, stronger.median_sign));
                maps.valid.push(true);
            },
            None => {
                maps.effect.push(0);
                maps.sign_agrees.push(false);
                maps.valid.push(false);
            },
        }
        proof {
            assert(is_mapped(maps, i as int, measured));
            assert forall|j: int| 0 <= j < i + 1 implies #[trigger] is_measured(
                measure,
                w as int,
                h as int,
                maps,
                j,
            ) by {
                if j < i {
                    assert(is_measured(measure, w as int, h as int, before, j));
                    assert(maps.effect@[j] == before.effect@[j]);
                    assert(maps.sign_agrees@[j] == before.sign_agrees@[j]);
                    assert(maps.valid@[j] == before.valid@[j]);
                    if blocks::is_interior(w as int, h as int, j) {
                        let there = choose|there: Option<PixelEffect>| #[trigger]
                            measure.ensures((j as usize,), there) && is_mapped(before, j, there);
                        assert(is_mapped(maps, j, there));
                    }
                } else if interior {
                    assert(measure.ensures((i,), measured));
                }
            }
        }
        i += 1;
    }
    maps
}

} // verus!
