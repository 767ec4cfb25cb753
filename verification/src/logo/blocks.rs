//! Sums over the frames of a video, in blocks of consecutive frames.
//!
//! What is there at all times has the same effect in each block; what is there for a while has
//! an effect in few of them.

use crate::logo::dilate;
use vstd::prelude::*;

verus! {

/// The number of blocks.
pub const NUM_BLOCKS: usize = 16;

/// Blocks with fewer frames are not used.
pub const MIN_SAMPLES_PER_BLOCK: u64 = 5;

/// With fewer usable blocks nothing is estimated.
pub const MIN_VALID_BLOCKS: usize = 8;

/// Pixels so close to the edge of the picture are not used.
pub const BORDER_MARGIN: u32 = 4;

/// The number of frames up to which sums of squares fit in 64 bits.
pub const MAX_FRAMES: u64 = 0x1_0000_0000_0000;

/// A bound of sums of brightness over [`MAX_FRAMES`] frames.
const SUM_LIMIT: i64 = 0x100_0000_0000_0000;

/// The block of frame `i` of `total`: blocks are equally long, as far as that goes.
pub open spec fn spec_block_of(i: int, total: int) -> int {
    if total == 0 {
        0
    } else if i * NUM_BLOCKS / total < NUM_BLOCKS {
        i * NUM_BLOCKS / total
    } else {
        NUM_BLOCKS - 1
    }
}

/// The block of frame `i` of `total`.
pub fn block_of(i: u64, total: u64) -> (b: usize)
    ensures
        b == spec_block_of(i as int, total as int),
        b < NUM_BLOCKS,
{
    if total == 0 {
        return 0;
    }
    let b: u128 = i as u128 * 16 / total as u128;
    proof {
        vstd::arithmetic::div_mod::lemma_div_pos_is_pos(i * 16, total as int);
    }
    if b < 16 {
        b as usize
    } else {
        15
    }
}

/// Frames of a video come block by block, and none has a block beyond the last.
pub proof fn blocks_follow_each_other(i: int, j: int, total: int)
    requires
        0 <= i <= j,
        0 < total,
    ensures
        0 <= spec_block_of(i, total) <= spec_block_of(j, total) < NUM_BLOCKS,
        j < total ==> spec_block_of(j, total) == j * NUM_BLOCKS / total,
{
    vstd::arithmetic::div_mod::lemma_div_is_ordered(i * 16, j * 16, total);
    vstd::arithmetic::div_mod::lemma_div_pos_is_pos(i * 16, total);
    if j < total {
        assert(j * 16 / total < 16) by (nonlinear_arith)
            requires
                0 <= j < total,
                total > 0,
        ;
    }
}

/// The usable blocks below `n`, by their numbers of frames.
pub open spec fn usable_blocks(counts: Seq<u64>, n: int) -> Seq<usize>
    decreases n,
{
    if n <= 0 {
        Seq::empty()
    } else if counts[n - 1] >= MIN_SAMPLES_PER_BLOCK {
        usable_blocks(counts, n - 1).push((n - 1) as usize)
    } else {
        usable_blocks(counts, n - 1)
    }
}

/// The usable blocks, by their numbers of frames. `None` where there are too few.
pub fn valid_blocks(counts: &Vec<u64>) -> (r: Option<Vec<usize>>)
    ensures
        match r {
            Some(blocks) => {
                &&& blocks@ == usable_blocks(counts@, counts@.len() as int)
                &&& blocks@.len() >= MIN_VALID_BLOCKS
            },
            None => usable_blocks(counts@, counts@.len() as int).len() < MIN_VALID_BLOCKS,
        },
        r is Some <==> usable_blocks(counts@, counts@.len() as int).len() >= 8,
{
    let mut blocks: Vec<usize> = Vec::new();
    let mut i: usize = 0;
    while i < counts.len()
        invariant
            i <= counts@.len(),
            blocks@ == usable_blocks(counts@, i as int),
        decreases counts@.len() - i,
    {
        if counts[i] >= MIN_SAMPLES_PER_BLOCK {
            blocks.push(i);
        }
        i += 1;
    }
    if blocks.len() < MIN_VALID_BLOCKS {
        None
    } else {
        Some(blocks)
    }
}

/// Pixel `i` is not too close to the edge of a picture of `w` by `h` pixels.
pub open spec fn is_interior(w: int, h: int, i: int) -> bool {
    &&& BORDER_MARGIN <= i % w < w - BORDER_MARGIN
    &&& BORDER_MARGIN <= i / w < h - BORDER_MARGIN
}

/// The sum over the frames `lo..hi` of how much pixel `i + step` is brighter than pixel `i`.
pub open spec fn step_sum(frames: Seq<Seq<u8>>, i: int, step: int, lo: int, hi: int) -> int
    decreases hi - lo,
{
    if lo >= hi {
        0
    } else {
        step_sum(frames, i, step, lo, hi - 1) + frames[hi - 1][i + step] - frames[hi - 1][i]
    }
}

/// The sum over the first `n` frames of the brightness of pixel `i`.
pub open spec fn luma_total(frames: Seq<Seq<u8>>, i: int, n: int) -> int
    decreases n,
{
    if n <= 0 {
        0
    } else {
        luma_total(frames, i, n - 1) + frames[n - 1][i]
    }
}

/// The sum over the first `n` frames of the square of the brightness of pixel `i`.
pub open spec fn luma_square_total(frames: Seq<Seq<u8>>, i: int, n: int) -> int
    decreases n,
{
    if n <= 0 {
        0
    } else {
        luma_square_total(frames, i, n - 1) + frames[n - 1][i] * frames[n - 1][i]
    }
}

/// Interior pixels in rows before `y`, or in row `y` and columns before `x`.
spec fn is_done(w: int, h: int, i: int, x: int, y: int) -> bool {
    is_interior(w, h, i) && (i / w < y || (i / w == y && i % w < x))
}

/// Adds to each interior pixel how much pixel `i + step` is brighter than pixel `i`.
fn add_steps(sums: &mut Vec<i64>, frame: &[u8], w: usize, h: usize, step: usize)
    requires
        frame@.len() == w * h,
        old(sums)@.len() == w * h,
        step == 1 || step == w,
        forall|i: int|
            0 <= i < w * h ==> -SUM_LIMIT <= #[trigger] old(sums)@[i] <= SUM_LIMIT,
    ensures
        final(sums)@.len() == w * h,
        forall|i: int|
            0 <= i < w * h ==> #[trigger] final(sums)@[i] == old(sums)@[i] + (if is_interior(
                w as int,
                h as int,
                i,
            ) {
                frame@[i + step] - frame@[i]
            } else {
                0
            }),
{
    let ghost wi = w as int;
    let ghost hi = h as int;
    let ghost before = sums@;
    let n: usize = frame.len();
    if w <= 8 || h <= 8 {
        return;
    }
    let mut y: usize = 4;
    while y < h - 4
        invariant
            n == frame@.len() == w * h == sums@.len() == before.len(),
            wi == w,
            hi == h,
            w > 8,
            h > 8,
            4 <= y <= h - 4,
            step == 1 || step == w,
            forall|i: int|
                0 <= i < n ==> -SUM_LIMIT <= #[trigger] before[i] <= SUM_LIMIT,
            forall|i: int|
                0 <= i < n ==> #[trigger] sums@[i] == before[i] + (if is_done(wi, hi, i, 4, y as int) {
                    frame@[i + step] - frame@[i]
                } else {
                    0
                }),
        decreases h - y,
    {
        let mut x: usize = 4;
        while x < w - 4
            invariant
                n == frame@.len() == w * h == sums@.len() == before.len(),
                wi == w,
                hi == h,
                w > 8,
                h > 8,
                4 <= y < h - 4,
                4 <= x <= w - 4,
                step == 1 || step == w,
                forall|i: int|
                    0 <= i < n ==> -SUM_LIMIT <= #[trigger] before[i] <= SUM_LIMIT,
                forall|i: int|
                    0 <= i < n ==> #[trigger] sums@[i] == before[i] + (if is_done(
                        wi,
                        hi,
                        i,
                        x as int,
                        y as int,
                    ) {
                        frame@[i + step] - frame@[i]
                    } else {
                        0
                    }),
            decreases w - x,
        {
            let ghost at = dilate::at(x as int, y as int, wi);
            proof {
                dilate::lemma_at(x as int, y as int, wi, hi);
                dilate::lemma_at(x + 1, y as int, wi, hi);
                dilate::lemma_at(x as int, y + 1, wi, hi);
                assert((y + 1) * w == y * w + w && 0 <= y * w) by (nonlinear_arith)
                    requires
                        0 <= y,
                        0 <= w,
                ;
            }
            let i: usize = y * w + x;
            let ghost old_sums = sums@;
            let sum: i64 = sums[i] + (frame[i + step] as i64 - frame[i] as i64);
            sums.set(i, sum);
            x += 1;
            proof {
                assert forall|k: int| 0 <= k < n implies #[trigger] sums@[k] == before[k] + (
                if is_done(wi, hi, k, x as int, y as int) {
                    frame@[k + step] - frame@[k]
                } else {
                    0
                }) by {
                    if k != at {
                        if k / wi == y && k % wi == x - 1 {
                            dilate::lemma_at_of(k, wi, hi);
                        }
                        assert(sums@[k] == old_sums[k]);
                    }
                }
            }
        }
        y += 1;
        proof {
            assert forall|k: int| 0 <= k < n implies #[trigger] sums@[k] == before[k] + (if is_done(
                wi,
                hi,
                k,
                4,
                y as int,
            ) {
                frame@[k + step] - frame@[k]
            } else {
                0
            }) by {
                assert(is_done(wi, hi, k, 4, y as int) == is_done(wi, hi, k, w - 4, y - 1));
            }
        }
    }
    proof {
        assert forall|k: int| 0 <= k < n implies #[trigger] sums@[k] == before[k] + (
        if is_interior(wi, hi, k) {
            frame@[k + step] - frame@[k]
        } else {
            0
        }) by {
            assert(is_interior(wi, hi, k) == is_done(wi, hi, k, 4, h - 4));
        }
    }
}

/// What a pixel adds to a sum of brightness, or to a sum of squares.
spec fn luma_part(v: u8, squares: bool) -> int {
    if squares {
        v * v
    } else {
        v as int
    }
}

/// Adds to each interior pixel its brightness, or the square of it.
fn add_luma(sums: &mut Vec<u64>, frame: &[u8], w: usize, h: usize, squares: bool)
    requires
        frame@.len() == w * h,
        old(sums)@.len() == w * h,
        forall|i: int|
            0 <= i < w * h ==> #[trigger] old(sums)@[i] <= u64::MAX - 65025,
    ensures
        final(sums)@.len() == w * h,
        forall|i: int|
            0 <= i < w * h ==> #[trigger] final(sums)@[i] == old(sums)@[i] + (if is_interior(
                w as int,
                h as int,
                i,
            ) {
                luma_part(frame@[i], squares)
            } else {
                0
            }),
{
    let ghost wi = w as int;
    let ghost hi = h as int;
    let ghost before = sums@;
    let n: usize = frame.len();
    if w <= 8 || h <= 8 {
        return;
    }
    let mut y: usize = 4;
    while y < h - 4
        invariant
            n == frame@.len() == w * h == sums@.len() == before.len(),
            wi == w,
            hi == h,
            w > 8,
            h > 8,
            4 <= y <= h - 4,
                forall|i: int|
                0 <= i < n ==> #[trigger] before[i] <= u64::MAX - 65025,
            forall|i: int|
                0 <= i < n ==> #[trigger] sums@[i] == before[i] + (if is_done(wi, hi, i, 4, y as int) {
                    luma_part(frame@[i], squares)
                } else {
                    0
                }),
        decreases h - y,
    {
        let mut x: usize = 4;
        while x < w - 4
            invariant
                n == frame@.len() == w * h == sums@.len() == before.len(),
                wi == w,
                hi == h,
                w > 8,
                h > 8,
                4 <= y < h - 4,
                4 <= x <= w - 4,
                        forall|i: int|
                    0 <= i < n ==> #[trigger] before[i] <= u64::MAX - 65025,
                forall|i: int|
                    0 <= i < n ==> #[trigger] sums@[i] == before[i] + (if is_done(
                        wi,
                        hi,
                        i,
                        x as int,
                        y as int,
                    ) {
                        luma_part(frame@[i], squares)
                    } else {
                        0
                    }),
            decreases w - x,
        {
            let ghost at = dilate::at(x as int, y as int, wi);
            proof {
                dilate::lemma_at(x as int, y as int, wi, hi);
                assert(0 <= y * w) by (nonlinear_arith)
                    requires
                        0 <= y,
                        0 <= w,
                ;
            }
            let i: usize = y * w + x;
            let ghost old_sums = sums@;
            let v: u64 = frame[i] as u64;
            assert(v * v <= 65025) by (nonlinear_arith)
                requires
                    0 <= v <= 255,
            ;
            let part: u64 = if squares {
                v * v
            } else {
                v
            };
            let sum: u64 = sums[i] + part;
            sums.set(i, sum);
            x += 1;
            proof {
                assert forall|k: int| 0 <= k < n implies #[trigger] sums@[k] == before[k] + (
                if is_done(wi, hi, k, x as int, y as int) {
                    luma_part(frame@[k], squares)
                } else {
                    0
                }) by {
                    if k != at {
                        if k / wi == y && k % wi == x - 1 {
                            dilate::lemma_at_of(k, wi, hi);
                        }
                        assert(sums@[k] == old_sums[k]);
                    }
                }
            }
        }
        y += 1;
        proof {
            assert forall|k: int| 0 <= k < n implies #[trigger] sums@[k] == before[k] + (if is_done(
                wi,
                hi,
                k,
                4,
                y as int,
            ) {
                luma_part(frame@[k], squares)
            } else {
                0
            }) by {
                assert(is_done(wi, hi, k, 4, y as int) == is_done(wi, hi, k, w - 4, y - 1));
            }
        }
    }
    proof {
        assert forall|k: int| 0 <= k < n implies #[trigger] sums@[k] == before[k] + (
        if is_interior(wi, hi, k) {
            luma_part(frame@[k], squares)
        } else {
            0
        }) by {
            assert(is_interior(wi, hi, k) == is_done(wi, hi, k, 4, h - 4));
        }
    }
}

proof fn lemma_step_sum(frames: Seq<Seq<u8>>, next: Seq<u8>, i: int, step: int, lo: int, hi: int)
    requires
        0 <= lo <= hi <= frames.len(),
    ensures
        step_sum(frames.push(next), i, step, lo, hi) == step_sum(frames, i, step, lo, hi),
        -255 * (hi - lo) <= step_sum(frames, i, step, lo, hi) <= 255 * (hi - lo),
    decreases hi - lo,
{
    if lo < hi {
        lemma_step_sum(frames, next, i, step, lo, hi - 1);
    }
}

proof fn lemma_luma_total(frames: Seq<Seq<u8>>, next: Seq<u8>, i: int, n: int)
    requires
        0 <= n <= frames.len(),
    ensures
        luma_total(frames.push(next), i, n) == luma_total(frames, i, n),
        0 <= luma_total(frames, i, n) <= 255 * n,
        luma_square_total(frames.push(next), i, n) == luma_square_total(frames, i, n),
        0 <= luma_square_total(frames, i, n) <= 65025 * n,
    decreases n,
{
    if n > 0 {
        lemma_luma_total(frames, next, i, n - 1);
        let v = frames[n - 1][i];
        assert(0 <= v * v <= 65025) by (nonlinear_arith)
            requires
                0 <= v <= 255,
        ;
    }
}

/// A block that is complete, with the sums over its frames.
pub struct ClosedBlock {
    pub block: usize,
    pub count: u64,
    /// For each pixel the sum of how much the next pixel to the right is brighter.
    pub sum_h: Vec<i64>,
    /// For each pixel the sum of how much the next pixel below is brighter.
    pub sum_v: Vec<i64>,
}

/// `sums` has the sums of steps over the frames `lo..hi` at interior pixels, and 0 elsewhere.
pub open spec fn holds_steps(
    sums: Seq<i64>,
    frames: Seq<Seq<u8>>,
    w: int,
    h: int,
    step: int,
    lo: int,
    hi: int,
) -> bool {
    &&& sums.len() == w * h
    &&& forall|i: int|
        0 <= i < w * h ==> #[trigger] sums[i] == (if is_interior(w, h, i) {
            step_sum(frames, i, step, lo, hi)
        } else {
            0
        })
}

/// `sums` has the sums of brightness of all frames at interior pixels, and 0 elsewhere.
pub open spec fn holds_luma(sums: Seq<u64>, frames: Seq<Seq<u8>>, w: int, h: int) -> bool {
    &&& sums.len() == w * h
    &&& forall|i: int|
        0 <= i < w * h ==> #[trigger] sums[i] == (if is_interior(w, h, i) {
            luma_total(frames, i, frames.len() as int)
        } else {
            0
        })
}

/// `sums` has the sums of squares of brightness of all frames at interior pixels, and 0
/// elsewhere.
pub open spec fn holds_luma_squares(sums: Seq<u64>, frames: Seq<Seq<u8>>, w: int, h: int) -> bool {
    &&& sums.len() == w * h
    &&& forall|i: int|
        0 <= i < w * h ==> #[trigger] sums[i] == (if is_interior(w, h, i) {
            luma_square_total(frames, i, frames.len() as int)
        } else {
            0
        })
}

/// Takes the frames of a video one by one, and sums them up block by block.
pub struct BlockAccumulator {
    w: usize,
    h: usize,
    total: u64,
    frames_seen: u64,
    current_block: usize,
    current_count: u64,
    current_sum_h: Vec<i64>,
    current_sum_v: Vec<i64>,
    luma_sum: Vec<u64>,
    luma_sum2: Vec<u64>,
    finished: bool,
    frames: Ghost<Seq<Seq<u8>>>,
}

fn zeros_i64(n: usize) -> (v: Vec<i64>)
    ensures
        v@.len() == n,
        forall|i: int| 0 <= i < n ==> #[trigger] v@[i] == 0,
{
    let mut v: Vec<i64> = Vec::new();
    let mut i: usize = 0;
    while i < n
        invariant
            i <= n,
            v@.len() == i,
            forall|k: int| 0 <= k < i ==> #[trigger] v@[k] == 0,
        decreases n - i,
    {
        v.push(0);
        i += 1;
    }
    v
}

fn zeros_u64(n: usize) -> (v: Vec<u64>)
    ensures
        v@.len() == n,
        forall|i: int| 0 <= i < n ==> #[trigger] v@[i] == 0,
{
    let mut v: Vec<u64> = Vec::new();
    let mut i: usize = 0;
    while i < n
        invariant
            i <= n,
            v@.len() == i,
            forall|k: int| 0 <= k < i ==> #[trigger] v@[k] == 0,
        decreases n - i,
    {
        v.push(0);
        i += 1;
    }
    v
}

impl BlockAccumulator {
    /// The width of the frames.
    pub closed spec fn width(&self) -> int {
        self.w as int
    }

    /// The height of the frames.
    pub closed spec fn height(&self) -> int {
        self.h as int
    }

    /// The number of frames that were announced.
    pub closed spec fn announced(&self) -> u64 {
        self.total
    }

    /// The frames so far.
    pub closed spec fn spec_frames(&self) -> Seq<Seq<u8>> {
        self.frames@
    }

    /// The block that frames are added to.
    pub closed spec fn block(&self) -> usize {
        self.current_block
    }

    /// The number of the first frame of that block.
    pub closed spec fn block_start(&self) -> int {
        self.frames@.len() - self.current_count
    }

    /// Whether the last block has ended.
    pub closed spec fn is_finished(&self) -> bool {
        self.finished
    }

    /// The sums are those of the frames so far.
    pub closed spec fn well_formed(&self) -> bool {
        let w = self.w as int;
        let h = self.h as int;
        let n = self.frames@.len() as int;
        let start = n - self.current_count;
        &&& w * h <= usize::MAX
        &&& n == self.frames_seen <= MAX_FRAMES
        &&& 0 <= start
        &&& self.current_block < NUM_BLOCKS
        &&& holds_steps(self.current_sum_h@, self.frames@, w, h, 1, start, n)
        &&& holds_steps(self.current_sum_v@, self.frames@, w, h, w, start, n)
        &&& holds_luma(self.luma_sum@, self.frames@, w, h)
        &&& holds_luma_squares(self.luma_sum2@, self.frames@, w, h)
    }

    /// Starts with frames of `w` by `h` pixels, of which there will be `total`.
    pub fn new(w: usize, h: usize, total: u64) -> (a: Self)
        requires
            w * h <= usize::MAX,
        ensures
            a.well_formed(),
            a.width() == w,
            a.height() == h,
            a.announced() == total,
            a.spec_frames() == Seq::<Seq<u8>>::empty(),
            a.block() == 0,
            a.block_start() == 0,
            !a.is_finished(),
    {
        let n: usize = w * h;
        BlockAccumulator {
            w,
            h,
            total,
            frames_seen: 0,
            current_block: 0,
            current_count: 0,
            current_sum_h: zeros_i64(n),
            current_sum_v: zeros_i64(n),
            luma_sum: zeros_u64(n),
            luma_sum2: zeros_u64(n),
            finished: false,
            frames: Ghost(Seq::empty()),
        }
    }

    /// Ends the current block, and starts block `next`.
    fn close_block(&mut self, next: usize) -> (closed: ClosedBlock)
        requires
            old(self).well_formed(),
            next < NUM_BLOCKS,
        ensures
            final(self).well_formed(),
            final(self).width() == old(self).width(),
            final(self).height() == old(self).height(),
            final(self).announced() == old(self).announced(),
            final(self).is_finished() == old(self).is_finished(),
            final(self).spec_frames() == old(self).spec_frames(),
            final(self).block() == next,
            final(self).block_start() == old(self).spec_frames().len(),
            old(self).is_closed_as(closed),
    {
        let n: usize = self.w * self.h;
        let mut sum_h: Vec<i64> = zeros_i64(n);
        let mut sum_v: Vec<i64> = zeros_i64(n);
        std::mem::swap(&mut sum_h, &mut self.current_sum_h);
        std::mem::swap(&mut sum_v, &mut self.current_sum_v);
        let closed = ClosedBlock {
            block: self.current_block,
            count: self.current_count,
            sum_h,
            sum_v,
        };
        self.current_count = 0;
        self.current_block = next;
        closed
    }

    /// What the current block is when it ends here.
    pub open spec fn is_closed_as(&self, closed: ClosedBlock) -> bool {
        let n = self.spec_frames().len() as int;
        &&& closed.block == self.block()
        &&& closed.count == n - self.block_start()
        &&& holds_steps(
            closed.sum_h@,
            self.spec_frames(),
            self.width(),
            self.height(),
            1,
            self.block_start(),
            n,
        )
        &&& holds_steps(
            closed.sum_v@,
            self.spec_frames(),
            self.width(),
            self.height(),
            self.width(),
            self.block_start(),
            n,
        )
    }

    /// Takes the next frame. Where it belongs to another block than the frame before it, the
    /// block of that frame ends and is returned. Nothing is taken where no frames were
    /// announced.
    pub fn add_frame(&mut self, frame: &[u8]) -> (closed: Option<ClosedBlock>)
        requires
            old(self).well_formed(),
            frame@.len() == old(self).width() * old(self).height(),
            old(self).spec_frames().len() < MAX_FRAMES,
        ensures
            final(self).well_formed(),
            final(self).width() == old(self).width(),
            final(self).height() == old(self).height(),
            final(self).announced() == old(self).announced(),
            final(self).is_finished() == old(self).is_finished(),
            old(self).announced() == 0 ==> {
                &&& *final(self) == *old(self)
                &&& closed is None
            },
            old(self).announced() > 0 ==> {
                let n = old(self).spec_frames().len() as int;
                let b = spec_block_of(n, old(self).announced() as int);
                &&& final(self).spec_frames() == old(self).spec_frames().push(frame@)
                &&& final(self).block() == b
                &&& closed is Some <==> old(self).block() != b
                &&& closed is Some ==> old(self).is_closed_as(closed->0)
                &&& final(self).block_start() == (if closed is Some {
                    n
                } else {
                    old(self).block_start()
                })
            },
    {
        if self.total == 0 {
            return None;
        }
        let b: usize = block_of(self.frames_seen, self.total);
        let mut closed: Option<ClosedBlock> = None;
        if b != self.current_block {
            closed = Some(self.close_block(b));
        }
        let ghost before = self.frames@;
        let ghost start = before.len() - self.current_count;
        let ghost n = before.len() as int;
        let w: usize = self.w;
        let h: usize = self.h;
        let ghost wi = w as int;
        let ghost hi = h as int;
        let ghost old_h = self.current_sum_h@;
        let ghost old_v = self.current_sum_v@;
        let ghost old_luma = self.luma_sum@;
        let ghost old_luma2 = self.luma_sum2@;
        let available: usize = frame.len();
        proof {
            assert forall|i: int| 0 <= i < w * h implies -SUM_LIMIT <= #[trigger] old_h[i]
                <= SUM_LIMIT by {
                lemma_step_sum(before, frame@, i, 1, start, n);
            }
            assert forall|i: int| 0 <= i < w * h implies -SUM_LIMIT <= #[trigger] old_v[i]
                <= SUM_LIMIT by {
                lemma_step_sum(before, frame@, i, wi, start, n);
            }
            assert forall|i: int| 0 <= i < w * h implies #[trigger] old_luma[i] <= u64::MAX
                - 65025 by {
                lemma_luma_total(before, frame@, i, n);
            }
            assert forall|i: int| 0 <= i < w * h implies #[trigger] old_luma2[i] <= u64::MAX
                - 65025 by {
                lemma_luma_total(before, frame@, i, n);
            }
        }
        add_luma(&mut self.luma_sum, frame, w, h, false);
        add_luma(&mut self.luma_sum2, frame, w, h, true);
        add_steps(&mut self.current_sum_h, frame, w, h, 1);
        add_steps(&mut self.current_sum_v, frame, w, h, w);
        self.current_count = self.current_count + 1;
        self.frames_seen = self.frames_seen + 1;
        self.frames = Ghost(before.push(frame@));
        proof {
            let after = self.frames@;
            assert(after[n] == frame@);
            assert forall|i: int| 0 <= i < w * h implies #[trigger] self.current_sum_h@[i] == (
            if is_interior(wi, hi, i) {
                step_sum(after, i, 1, start, n + 1)
            } else {
                0
            }) by {
                lemma_step_sum(before, frame@, i, 1, start, n);
            }
            assert forall|i: int| 0 <= i < w * h implies #[trigger] self.current_sum_v@[i] == (
            if is_interior(wi, hi, i) {
                step_sum(after, i, wi, start, n + 1)
            } else {
                0
            }) by {
                lemma_step_sum(before, frame@, i, wi, start, n);
            }
            assert forall|i: int| 0 <= i < w * h implies #[trigger] self.luma_sum@[i] == (
            if is_interior(wi, hi, i) {
                luma_total(after, i, n + 1)
            } else {
                0
            }) by {
                lemma_luma_total(before, frame@, i, n);
            }
            assert forall|i: int| 0 <= i < w * h implies #[trigger] self.luma_sum2@[i] == (
            if is_interior(wi, hi, i) {
                luma_square_total(after, i, n + 1)
            } else {
                0
            }) by {
                lemma_luma_total(before, frame@, i, n);
            }
        }
        closed
    }

    /// Ends the last block. Once that is done, a further call does nothing and returns `None`.
    pub fn finish(&mut self) -> (closed: Option<ClosedBlock>)
        requires
            old(self).well_formed(),
        ensures
            final(self).well_formed(),
            final(self).is_finished(),
            old(self).is_finished() ==> {
                &&& *final(self) == *old(self)
                &&& closed is None
            },
            !old(self).is_finished() ==> {
                &&& final(self).width() == old(self).width()
                &&& final(self).height() == old(self).height()
                &&& final(self).announced() == old(self).announced()
                &&& final(self).spec_frames() == old(self).spec_frames()
                &&& final(self).block() == old(self).block()
                &&& final(self).block_start() == old(self).spec_frames().len()
                &&& closed is Some
                &&& old(self).is_closed_as(closed->0)
            },
    {
        if self.finished {
            return None;
        }
        let block: usize = self.current_block;
        let closed: ClosedBlock = self.close_block(block);
        self.finished = true;
        Some(closed)
    }

    /// The number of frames so far.
    pub fn frames_seen(&self) -> (n: u64)
        requires
            self.well_formed(),
        ensures
            n == self.spec_frames().len(),
    {
        self.frames_seen
    }

    /// For each pixel the sum of its brightness.
    pub fn luma_sum(&self) -> (sums: &Vec<u64>)
        requires
            self.well_formed(),
        ensures
            holds_luma(sums@, self.spec_frames(), self.width(), self.height()),
    {
        &self.luma_sum
    }

    /// For each pixel the sum of the square of its brightness.
    pub fn luma_sum2(&self) -> (sums: &Vec<u64>)
        requires
            self.well_formed(),
        ensures
            holds_luma_squares(sums@, self.spec_frames(), self.width(), self.height()),
    {
        &self.luma_sum2
    }
}

} // verus!
