//! Growing the set pixels of a mask.

use vstd::prelude::*;

verus! {

/// How many of the positions `lo..hi` are set.
pub open spec fn count_set(s: Seq<bool>, lo: int, hi: int) -> int
    decreases hi - lo,
{
    if lo >= hi {
        0
    } else {
        count_set(s, lo, hi - 1) + (if s[hi - 1] {
            1int
        } else {
            0
        })
    }
}

/// A position at most `radius` away from `x` is set.
pub open spec fn near_set(s: Seq<bool>, radius: int, x: int) -> bool {
    exists|j: int| 0 <= j < s.len() && x - radius <= j <= x + radius && #[trigger] s[j]
}

proof fn lemma_count_bound(s: Seq<bool>, lo: int, hi: int)
    requires
        lo <= hi,
    ensures
        0 <= count_set(s, lo, hi) <= hi - lo,
    decreases hi - lo,
{
    if lo < hi {
        lemma_count_bound(s, lo, hi - 1);
    }
}

proof fn lemma_count_positive(s: Seq<bool>, lo: int, hi: int)
    requires
        0 <= lo <= hi <= s.len(),
    ensures
        count_set(s, lo, hi) > 0 <==> exists|j: int| lo <= j < hi && #[trigger] s[j],
    decreases hi - lo,
{
    lemma_count_bound(s, lo, hi);
    if lo < hi {
        lemma_count_positive(s, lo, hi - 1);
        lemma_count_bound(s, lo, hi - 1);
        if s[hi - 1] {
            assert(exists|j: int| lo <= j < hi && #[trigger] s[j]);
        } else if count_set(s, lo, hi - 1) > 0 {
            let j = choose|j: int| lo <= j < hi - 1 && #[trigger] s[j];
            assert(lo <= j < hi && s[j]);
        }
    }
}

proof fn lemma_count_first(s: Seq<bool>, lo: int, hi: int)
    requires
        lo < hi,
    ensures
        count_set(s, lo, hi) == count_set(s, lo + 1, hi) + (if s[lo] {
            1int
        } else {
            0
        }),
    decreases hi - lo,
{
    if lo + 1 < hi {
        lemma_count_first(s, lo, hi - 1);
    } else {
        assert(count_set(s, lo, hi - 1) == 0);
    }
}

/// Sets every position that is at most `radius` away from a set one.
pub fn dilate_1d(input: &[bool], radius: usize) -> (out: Vec<bool>)
    ensures
        out@.len() == input@.len(),
        forall|x: int|
            0 <= x < input@.len() ==> #[trigger] out@[x] == near_set(input@, radius as int, x),
{
    let n: usize = input.len();
    let mut out: Vec<bool> = Vec::new();
    let mut lo: usize = 0;
    let mut hi: usize = 0;
    let mut count: usize = 0;
    let mut x: usize = 0;
    while x < n
        invariant
            n == input@.len(),
            x <= n,
            out@.len() == x,
            lo <= hi <= n,
            x < n ==> lo <= x,
            x > 0 ==> lo == (if x - 1 >= radius {
                x - 1 - radius
            } else {
                0
            }),
            x == 0 ==> lo == 0 && hi == 0,
            x > 0 ==> hi == (if x + radius <= n {
                x + radius
            } else {
                n as int
            }),
            count == count_set(input@, lo as int, hi as int),
            forall|k: int|
                0 <= k < x ==> #[trigger] out@[k] == near_set(input@, radius as int, k),
        decreases n - x,
    {
        let new_lo: usize = if x >= radius {
            x - radius
        } else {
            0
        };
        let new_end: usize = if n - x > radius {
            x + radius + 1
        } else {
            n
        };
        while hi < new_end
            invariant
                n == input@.len(),
                lo <= hi <= new_end <= n,
                count == count_set(input@, lo as int, hi as int),
            decreases new_end - hi,
        {
            proof {
                lemma_count_bound(input@, lo as int, hi as int);
            }
            if input[hi] {
                count += 1;
            }
            hi += 1;
        }
        while lo < new_lo
            invariant
                n == input@.len(),
                lo <= new_lo < hi <= n,
                count == count_set(input@, lo as int, hi as int),
            decreases new_lo - lo,
        {
            proof {
                lemma_count_first(input@, lo as int, hi as int);
                lemma_count_bound(input@, lo + 1, hi as int);
            }
            if input[lo] {
                count -= 1;
            }
            lo += 1;
        }
        proof {
            lemma_count_positive(input@, lo as int, hi as int);
            let s = input@;
            let r = radius as int;
            if count > 0 {
                let j = choose|j: int| lo <= j < hi && #[trigger] s[j];
                assert(x - r <= j <= x + r && s[j]);
            }
            if near_set(s, r, x as int) {
                let j = choose|j: int| 0 <= j < s.len() && x - r <= j <= x + r && #[trigger] s[j];
                assert(lo <= j < hi && s[j]);
            }
        }
        out.push(count > 0);
        x += 1;
    }
    out
}

/// The pixel in column `x` and row `y` of a picture `w` wide.
pub open spec fn at(x: int, y: int, w: int) -> int {
    y * w + x
}

/// A pixel at most `radius` columns and at most `radius` rows away from column `x` and row `y`
/// is set.
pub open spec fn near_set_pixel(
    mask: Seq<bool>,
    w: int,
    h: int,
    radius: int,
    x: int,
    y: int,
) -> bool {
    exists|xx: int, yy: int|
        0 <= xx < w && 0 <= yy < h && x - radius <= xx <= x + radius && y - radius <= yy <= y
            + radius && mask[#[trigger] at(xx, yy, w)]
}

/// A pixel lies within the picture.
pub proof fn lemma_at(x: int, y: int, w: int, h: int)
    requires
        0 <= x < w,
        0 <= y < h,
    ensures
        0 <= at(x, y, w) < w * h,
        at(x, y, w) / w == y,
        at(x, y, w) % w == x,
{
    assert(0 <= y * w + x < w * h) by (nonlinear_arith)
        requires
            0 <= x < w,
            0 <= y < h,
    ;
    vstd::arithmetic::div_mod::lemma_fundamental_div_mod_converse(y * w + x, w, y, x);
}

/// A pixel has one column and one row.
pub proof fn lemma_at_of(i: int, w: int, h: int)
    requires
        0 <= i < w * h,
        0 < w,
    ensures
        0 <= i % w < w,
        0 <= i / w < h,
        at(i % w, i / w, w) == i,
{
    vstd::arithmetic::div_mod::lemma_fundamental_div_mod(i, w);
    vstd::arithmetic::div_mod::lemma_mod_bound(i, w);
    let y = i / w;
    let x = i % w;
    assert(0 <= y < h && y * w + x == i) by (nonlinear_arith)
        requires
            0 <= i < w * h,
            i == w * y + x,
            0 <= x < w,
    ;
}

/// Row `y` of a mask `w` wide, from `x` on `mask[y * w + x]`.
fn row_of(mask: &[bool], w: usize, h: usize, y: usize) -> (row: Vec<bool>)
    requires
        mask@.len() == w * h,
        y < h,
    ensures
        row@.len() == w,
        forall|x: int| 0 <= x < w ==> #[trigger] row@[x] == mask@[at(x, y as int, w as int)],
{
    let n: usize = mask.len();
    let mut row: Vec<bool> = Vec::new();
    let mut x: usize = 0;
    while x < w
        invariant
            n == mask@.len() == w * h,
            y < h,
            x <= w,
            row@.len() == x,
            forall|k: int| 0 <= k < x ==> #[trigger] row@[k] == mask@[at(k, y as int, w as int)],
        decreases w - x,
    {
        proof {
            lemma_at(x as int, y as int, w as int, h as int);
            assert(0 <= y * w) by (nonlinear_arith)
                requires
                    0 <= y,
                    0 <= w,
            ;
        }
        row.push(mask[y * w + x]);
        x += 1;
    }
    row
}

/// Column `x` of a mask `w` wide.
fn column_of(mask: &Vec<bool>, w: usize, h: usize, x: usize) -> (column: Vec<bool>)
    requires
        mask@.len() == w * h,
        x < w,
    ensures
        column@.len() == h,
        forall|y: int| 0 <= y < h ==> #[trigger] column@[y] == mask@[at(x as int, y, w as int)],
{
    let n: usize = mask.len();
    let mut column: Vec<bool> = Vec::new();
    let mut y: usize = 0;
    while y < h
        invariant
            n == mask@.len() == w * h,
            x < w,
            y <= h,
            column@.len() == y,
            forall|k: int| 0 <= k < y ==> #[trigger] column@[k] == mask@[at(x as int, k, w as int)],
        decreases h - y,
    {
        proof {
            lemma_at(x as int, y as int, w as int, h as int);
            assert(0 <= y * w) by (nonlinear_arith)
                requires
                    0 <= y,
                    0 <= w,
            ;
        }
        column.push(mask[y * w + x]);
        y += 1;
    }
    column
}

/// Sets every pixel that is at most `radius` columns and `radius` rows away from a set one.
pub fn dilate(w: usize, h: usize, mask: &[bool], radius: usize) -> (out: Vec<bool>)
    requires
        mask@.len() == w * h,
    ensures
        out@.len() == w * h,
        forall|x: int, y: int|
            0 <= x < w && 0 <= y < h ==> out@[#[trigger] at(x, y, w as int)] == near_set_pixel(
                mask@,
                w as int,
                h as int,
                radius as int,
                x,
                y,
            ),
{
    let n: usize = mask.len();
    let mut rows: Vec<bool> = Vec::new();
    let mut y: usize = 0;
    while y < h
        invariant
            n == mask@.len() == w * h,
            y <= h,
            rows@.len() == y * w,
            forall|xx: int, yy: int|
                0 <= xx < w && 0 <= yy < y ==> rows@[#[trigger] at(xx, yy, w as int)]
                    == near_in_row(mask@, w as int, radius as int, xx, yy),
        decreases h - y,
    {
        let row: Vec<bool> = row_of(mask, w, h, y);
        let mut dilated: Vec<bool> = dilate_1d(row.as_slice(), radius);
        let ghost before = rows@;
        let ghost wide = dilated@;
        rows.append(&mut dilated);
        proof {
            let wi = w as int;
            assert((y + 1) * w == y * w + w) by (nonlinear_arith);
            assert forall|xx: int, yy: int| 0 <= xx < w && 0 <= yy < y + 1 implies rows@[
            #[trigger] at(xx, yy, wi)] == near_in_row(mask@, wi, radius as int, xx, yy) by {
                if yy < y {
                    lemma_at(xx, yy, wi, y as int);
                    assert(wi * y == y * wi) by (nonlinear_arith);
                    assert(rows@[at(xx, yy, wi)] == before[at(xx, yy, wi)]);
                } else {
                    assert(rows@[at(xx, yy, wi)] == wide[xx]);
                    lemma_row_near(mask@, row@, wi, radius as int, xx, yy);
                }
            }
        }
        y += 1;
    }
    assert(w * h == h * w) by (nonlinear_arith);
    let mut out: Vec<bool> = Vec::new();
    let mut i: usize = 0;
    while i < n
        invariant
            i <= n,
            out@.len() == i,
        decreases n - i,
    {
        out.push(false);
        i += 1;
    }
    let mut x: usize = 0;
    while x < w
        invariant
            n == mask@.len() == w * h,
            rows@.len() == w * h,
            x <= w,
            out@.len() == n,
            forall|xx: int, yy: int|
                0 <= xx < w && 0 <= yy < h ==> rows@[#[trigger] at(xx, yy, w as int)]
                    == near_in_row(mask@, w as int, radius as int, xx, yy),
            forall|xx: int, yy: int|
                0 <= xx < x && 0 <= yy < h ==> out@[#[trigger] at(xx, yy, w as int)]
                    == near_set_pixel(mask@, w as int, h as int, radius as int, xx, yy),
        decreases w - x,
    {
        let column: Vec<bool> = column_of(&rows, w, h, x);
        let dilated: Vec<bool> = dilate_1d(column.as_slice(), radius);
        let mut y: usize = 0;
        while y < h
            invariant
                n == mask@.len() == w * h,
                x < w,
                y <= h,
                out@.len() == n,
                dilated@.len() == h,
                column@.len() == h,
                forall|k: int| 0 <= k < h ==> #[trigger] column@[k] == near_in_row(
                    mask@,
                    w as int,
                    radius as int,
                    x as int,
                    k,
                ),
                forall|k: int|
                    0 <= k < h ==> #[trigger] dilated@[k] == near_set(column@, radius as int, k),
                forall|xx: int, yy: int|
                    0 <= xx < x && 0 <= yy < h ==> out@[#[trigger] at(xx, yy, w as int)]
                        == near_set_pixel(mask@, w as int, h as int, radius as int, xx, yy),
                forall|yy: int|
                    0 <= yy < y ==> out@[#[trigger] at(x as int, yy, w as int)] == near_set_pixel(
                        mask@,
                        w as int,
                        h as int,
                        radius as int,
                        x as int,
                        yy,
                    ),
            decreases h - y,
        {
            let ghost before = out@;
            proof {
                lemma_at(x as int, y as int, w as int, h as int);
                assert(0 <= y * w) by (nonlinear_arith)
                    requires
                        0 <= y,
                        0 <= w,
                ;
                lemma_column_near(
                    mask@,
                    column@,
                    w as int,
                    h as int,
                    radius as int,
                    x as int,
                    y as int,
                );
            }
            out.set(y * w + x, dilated[y]);
            proof {
                assert forall|xx: int, yy: int| 0 <= xx < x && 0 <= yy < h implies out@[
                #[trigger] at(xx, yy, w as int)] == near_set_pixel(
                    mask@,
                    w as int,
                    h as int,
                    radius as int,
                    xx,
                    yy,
                ) by {
                    lemma_at(xx, yy, w as int, h as int);
                }
                assert forall|yy: int| 0 <= yy < y + 1 implies out@[
                #[trigger] at(x as int, yy, w as int)] == near_set_pixel(
                    mask@,
                    w as int,
                    h as int,
                    radius as int,
                    x as int,
                    yy,
                ) by {
                    lemma_at(x as int, yy, w as int, h as int);
                }
            }
            y += 1;
        }
        x += 1;
    }
    out
}

/// A pixel of row `y` at most `radius` columns away from column `x` is set.
spec fn near_in_row(mask: Seq<bool>, w: int, radius: int, x: int, y: int) -> bool {
    exists|xx: int| 0 <= xx < w && x - radius <= xx <= x + radius && mask[#[trigger] at(xx, y, w)]
}

proof fn lemma_row_near(mask: Seq<bool>, row: Seq<bool>, w: int, radius: int, x: int, y: int)
    requires
        row.len() == w,
        forall|k: int| 0 <= k < w ==> #[trigger] row[k] == mask[at(k, y, w)],
    ensures
        near_set(row, radius, x) == near_in_row(mask, w, radius, x, y),
{
    if near_set(row, radius, x) {
        let j = choose|j: int|
            0 <= j < row.len() && x - radius <= j <= x + radius && #[trigger] row[j];
        assert(mask[at(j, y, w)]);
    }
    if near_in_row(mask, w, radius, x, y) {
        let j = choose|j: int|
            0 <= j < w && x - radius <= j <= x + radius && mask[#[trigger] at(j, y, w)];
        assert(row[j]);
    }
}

proof fn lemma_column_near(
    mask: Seq<bool>,
    column: Seq<bool>,
    w: int,
    h: int,
    radius: int,
    x: int,
    y: int,
)
    requires
        column.len() == h,
        forall|k: int| 0 <= k < h ==> #[trigger] column[k] == near_in_row(mask, w, radius, x, k),
    ensures
        near_set(column, radius, y) == near_set_pixel(mask, w, h, radius, x, y),
{
    if near_set(column, radius, y) {
        let k = choose|k: int|
            0 <= k < column.len() && y - radius <= k <= y + radius && #[trigger] column[k];
        let j = choose|j: int|
            0 <= j < w && x - radius <= j <= x + radius && mask[#[trigger] at(j, k, w)];
        assert(mask[at(j, k, w)]);
    }
    if near_set_pixel(mask, w, h, radius, x, y) {
        let (j, k) = choose|j: int, k: int|
            0 <= j < w && 0 <= k < h && x - radius <= j <= x + radius && y - radius <= k <= y
                + radius && mask[#[trigger] at(j, k, w)];
        assert(near_in_row(mask, w, radius, x, k)) by {
            assert(mask[at(j, k, w)]);
        }
        assert(column[k]);
    }
}

} // verus!
