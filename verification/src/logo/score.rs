//! Where the presence of a logo is measured.
//!
//! A logo is compared with a picture at the pixels where it varies most. Around each of them
//! lies a window of five by five pixels. The variation and the comparison are computed
//! elsewhere; variations are given here as whole numbers that are ordered as they are.

use crate::logo::dilate;
use crate::sort;
use crate::text;
use vstd::prelude::*;

verus! {

/// The number of pixels of a window.
pub const WINDOW: usize = 25;

/// A logo cannot be measured.
#[derive(Debug, Clone, Copy, PartialEq, Eq, Structural)]
pub enum LogoMaskError {
    /// No window fits in it.
    TooSmall { w: i32, h: i32 },
}

impl LogoMaskError {
    /// The message for the user.
    pub open spec fn spec_message(self) -> Seq<char> {
        match self {
            LogoMaskError::TooSmall { w, h } => {
                "LogoMask::new: w="@ + text::signed_decimal(w as int) + ", h="@
                    + text::signed_decimal(h as int) + " は 5x5 窓を置くには小さすぎる（5 以上が必要）"@
            },
        }
    }

    /// The message for the user.
    pub fn message(&self) -> (m: String)
        ensures
            m@ == self.spec_message(),
    {
        let mut m = String::new();
        match self {
            LogoMaskError::TooSmall { w, h } => {
                m.append("LogoMask::new: w=");
                text::push_i64(&mut m, *w as i64);
                m.append(", h=");
                text::push_i64(&mut m, *h as i64);
                m.append(" は 5x5 窓を置くには小さすぎる（5 以上が必要）");
            },
        }
        assert(m@ =~= self.spec_message());
        m
    }
}

/// Checks that a window fits in a logo of `w` by `h` pixels. None fits in a logo of negative size.
pub fn check_mask_size(w: i32, h: i32) -> (r: Result<(), LogoMaskError>)
    ensures
        r is Err <==> w < 5 || h < 5,
        r == (if w < 5 || h < 5 {
            Err::<(), LogoMaskError>(LogoMaskError::TooSmall { w, h })
        } else {
            Ok(())
        }),
{
    if w < 5 || h < 5 {
        Err(LogoMaskError::TooSmall { w, h })
    } else {
        Ok(())
    }
}

/// The pixels of the window around column `cx` and row `cy` of a picture `w` wide, row by row.
pub open spec fn window(w: int, cx: int, cy: int) -> Seq<usize> {
    Seq::new(
        WINDOW as nat,
        |i: int| dilate::at(cx - 2 + i % 5, cy - 2 + i / 5, w) as usize,
    )
}

/// The pixels of the window around column `cx` and row `cy` of a picture `w` wide, row by row.
pub fn window_indices(w: usize, cx: usize, cy: usize) -> (idx: Vec<usize>)
    requires
        2 <= cx < w - 2,
        2 <= cy,
        w * (cy + 3) <= usize::MAX,
    ensures
        idx@ == window(w as int, cx as int, cy as int),
        forall|i: int| 0 <= i < WINDOW ==> #[trigger] idx@[i] < w * (cy + 3),
{
    let ghost h: int = cy + 3;
    let mut idx: Vec<usize> = Vec::new();
    let mut dy: usize = 0;
    while dy < 5
        invariant
            h == cy + 3,
            w * h <= usize::MAX,
            2 <= cx < w - 2,
            2 <= cy,
            dy <= 5,
            idx@.len() == 5 * dy,
            forall|i: int|
                0 <= i < 5 * dy ==> #[trigger] idx@[i] == window(w as int, cx as int, cy as int)[i],
            forall|i: int| 0 <= i < 5 * dy ==> #[trigger] idx@[i] < w * h,
        decreases 5 - dy,
    {
        let mut dx: usize = 0;
        while dx < 5
            invariant
                h == cy + 3,
                w * h <= usize::MAX,
                2 <= cx < w - 2,
                2 <= cy,
                dy < 5,
                dx <= 5,
                idx@.len() == 5 * dy + dx,
                forall|i: int|
                    0 <= i < 5 * dy + dx ==> #[trigger] idx@[i] == window(
                        w as int,
                        cx as int,
                        cy as int,
                    )[i],
                forall|i: int| 0 <= i < 5 * dy + dx ==> #[trigger] idx@[i] < w * h,
            decreases 5 - dx,
        {
            proof {
                dilate::lemma_at(cx - 2 + dx, cy - 2 + dy, w as int, h);
                assert(0 <= (cy - 2 + dy) * w && cy + 3 <= w * (cy + 3)) by (nonlinear_arith)
                    requires
                        0 <= cy - 2 + dy,
                        0 <= cy,
                        0 < w,
                ;
                let i = 5 * dy + dx;
                assert(i % 5 == dx && i / 5 == dy);
            }
            idx.push((cy - 2 + dy) * w + (cx - 2 + dx));
            dx += 1;
        }
        dy += 1;
    }
    assert(idx@ =~= window(w as int, cx as int, cy as int));
    idx
}

/// The window around a pixel has each pixel once that is at most two columns and two rows away.
pub proof fn window_surrounds_its_centre(w: int, h: int, cx: int, cy: int, x: int, y: int)
    requires
        w * h <= usize::MAX,
        2 <= cx < w - 2,
        2 <= cy < h - 2,
        -2 <= x - cx <= 2,
        -2 <= y - cy <= 2,
    ensures
        window(w, cx, cy).contains(dilate::at(x, y, w) as usize),
        window(w, cx, cy).no_duplicates(),
{
    let all = window(w, cx, cy);
    let k = 5 * (y - cy + 2) + (x - cx + 2);
    assert(k % 5 == x - cx + 2 && k / 5 == y - cy + 2);
    assert(all[k] == dilate::at(x, y, w) as usize);
    assert forall|i: int, j: int|
        0 <= i < all.len() && 0 <= j < all.len() && i != j implies all[i] != all[j] by {
        dilate::lemma_at(cx - 2 + i % 5, cy - 2 + i / 5, w, h);
        dilate::lemma_at(cx - 2 + j % 5, cy - 2 + j / 5, w, h);
    }
}

/// The pixels, by column and row, around which a window lies within a picture of `w` by `h`
/// pixels, row by row.
pub open spec fn centres(w: int, h: int) -> Seq<(usize, usize)> {
    Seq::new(
        ((w - 4) * (h - 4)) as nat,
        |i: int| ((2 + i % (w - 4)) as usize, (2 + i / (w - 4)) as usize),
    )
}

/// The pixels around which a window lies within a picture of `w` by `h` pixels.
pub fn window_centres(w: usize, h: usize) -> (list: Vec<(usize, usize)>)
    requires
        w >= 5,
        h >= 5,
        w * h <= usize::MAX,
    ensures
        list@ == centres(w as int, h as int),
{
    let ghost cw = w - 4;
    let ghost ch = h - 4;
    let ghost all = centres(w as int, h as int);
    let mut list: Vec<(usize, usize)> = Vec::new();
    let mut y: usize = 2;
    assert(cw * 0 == 0) by (nonlinear_arith);
    while y < h - 2
        invariant
            w >= 5,
            h >= 5,
            cw == w - 4,
            ch == h - 4,
            all == centres(w as int, h as int),
            2 <= y <= h - 2,
            list@.len() == cw * (y - 2),
            forall|i: int| 0 <= i < cw * (y - 2) ==> #[trigger] list@[i] == all[i],
        decreases h - y,
    {
        proof {
            assert(cw * (y - 2) + cw == cw * (y - 1) && cw * (y - 1) <= cw * ch && 0 <= cw * (y
                - 2)) by (nonlinear_arith)
                requires
                    2 <= y,
                    y - 1 <= ch,
                    0 < cw,
            ;
        }
        let mut x: usize = 2;
        while x < w - 2
            invariant
                w >= 5,
                cw == w - 4,
                ch == h - 4,
                2 <= y < h - 2,
                all == centres(w as int, h as int),
                2 <= x <= w - 2,
                0 <= cw * (y - 2),
                cw * (y - 2) + cw <= cw * ch,
                list@.len() == cw * (y - 2) + (x - 2),
                forall|i: int|
                    0 <= i < cw * (y - 2) + (x - 2) ==> #[trigger] list@[i] == all[i],
            decreases w - x,
        {
            proof {
                let i = cw * (y - 2) + (x - 2);
                assert(cw * (y - 2) == (y - 2) * cw) by (nonlinear_arith);
                vstd::arithmetic::div_mod::lemma_fundamental_div_mod_converse(i, cw, y - 2, x - 2);
            }
            list.push((x, y));
            x += 1;
        }
        y += 1;
    }
    assert(list@ =~= all);
    list
}

/// The `n` centres of the greatest variations, the greatest first; of equal variations the one
/// that comes first. `order` lists the centres by variation.
pub open spec fn picked(
    all: Seq<(usize, usize)>,
    order: Seq<usize>,
    n: int,
) -> Seq<(usize, usize)> {
    Seq::new(n as nat, |i: int| all[order[i] as int])
}

/// The variations with the greatest first in ascending order.
pub open spec fn descending_keys(variances: Seq<i32>) -> Seq<i128> {
    variances.map_values(|v: i32| -(v as i128) as i128)
}

/// Picks the `n` centres of the greatest variations, or all where there are fewer. `variances`
/// has the variation of the window around each centre.
pub fn attention_points(all: &Vec<(usize, usize)>, variances: &Vec<i32>, n: usize) -> (r: Vec<
    (usize, usize),
>)
    requires
        all@.len() == variances@.len(),
    ensures
        exists|order: Seq<usize>|
            #[trigger] sort::is_stable_order(descending_keys(variances@), order) && r@ == picked(
                all@,
                order,
                if n < all@.len() {
                    n as int
                } else {
                    all@.len() as int
                },
            ),
{
    let total: usize = all.len();
    let mut keys: Vec<i128> = Vec::new();
    let mut i: usize = 0;
    while i < total
        invariant
            total == variances@.len(),
            i <= total,
            keys@.len() == i,
            forall|k: int| 0 <= k < i ==> #[trigger] keys@[k] == -variances@[k],
        decreases total - i,
    {
        keys.push(-(variances[i] as i128));
        i += 1;
    }
    assert(keys@ =~= descending_keys(variances@));
    let order: Vec<usize> = sort::stable_order(&keys);
    let count: usize = if n < total {
        n
    } else {
        total
    };
    let mut r: Vec<(usize, usize)> = Vec::new();
    let mut k: usize = 0;
    while k < count
        invariant
            total == all@.len() == keys@.len(),
            sort::is_stable_order(keys@, order@),
            count <= total,
            k <= count,
            r@.len() == k,
            forall|j: int| 0 <= j < k ==> #[trigger] r@[j] == all@[order@[j] as int],
        decreases count - k,
    {
        r.push(all[order[k]]);
        k += 1;
    }
    assert(r@ =~= picked(all@, order@, count as int));
    r
}

/// The points that are picked do not depend on how the order was found.
pub proof fn picked_points_are_determined(
    all: Seq<(usize, usize)>,
    variances: Seq<i32>,
    a: Seq<usize>,
    b: Seq<usize>,
    n: int,
)
    requires
        sort::is_stable_order(descending_keys(variances), a),
        sort::is_stable_order(descending_keys(variances), b),
    ensures
        picked(all, a, n) == picked(all, b, n),
{
    sort::stable_order_is_unique(descending_keys(variances), a, b);
}

} // verus!
