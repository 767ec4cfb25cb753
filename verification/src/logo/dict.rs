//! The collection of learned logos, and which of them fits a video.
//!
//! Logos are kept with the data of the user: unlike caches they cannot be made again once the
//! recording is gone. Nothing is ever overwritten.

use crate::logo::dilate;
use crate::logo::frames::VideoSize;
use crate::logo::lgd::LogoData;
use crate::text;
use crate::words;
use vstd::prelude::*;

verus! {

/// The place of the collection cannot be found.
#[derive(Debug, Clone, Copy, PartialEq, Eq, Structural)]
pub struct NoHomeDirectory;

impl NoHomeDirectory {
    /// The message for the user.
    pub fn message(&self) -> (m: String)
        ensures
            m@
                == "ホームディレクトリを特定できず、ロゴ辞書の既定の置き場所（$XDG_DATA_HOME/tachikaze/logos または ~/.local/share/tachikaze/logos）を決められませんでした。呼び出し側の上書き引数で明示してください。"@,
    {
        "ホームディレクトリを特定できず、ロゴ辞書の既定の置き場所（$XDG_DATA_HOME/tachikaze/logos または ~/.local/share/tachikaze/logos）を決められませんでした。呼び出し側の上書き引数で明示してください。".to_owned()
    }
}

/// A directory below another one.
pub struct DictDir<P> {
    pub base: P,
    /// The names of the directories that lead from `base` to it.
    pub below: Vec<String>,
}

/// Appends the names of the directories of the collection.
pub fn append_tachikaze_logos(below: &mut Vec<String>)
    ensures
        text::text_views(final(below)@) == text::text_views(old(below)@) + seq![
            "tachikaze"@,
            "logos"@,
        ],
{
    let ghost before = text::text_views(below@);
    text::push_text(below, "tachikaze");
    text::push_text(below, "logos");
    assert(text::text_views(below@) =~= before + seq!["tachikaze"@, "logos"@]);
}

/// The place of the collection unless told otherwise: below the directory for the data of the
/// user, or else where that is by default below the home directory.
pub fn default_dict_dir<P>(xdg_data_home: Option<P>, home: Option<P>) -> (r: Result<
    DictDir<P>,
    NoHomeDirectory,
>)
    ensures
        match r {
            Ok(dir) => {
                ||| xdg_data_home == Some(dir.base) && text::text_views(dir.below@) == seq![
                    "tachikaze"@,
                    "logos"@,
                ]
                ||| xdg_data_home is None && home == Some(dir.base) && text::text_views(
                    dir.below@,
                ) == seq![".local"@, "share"@, "tachikaze"@, "logos"@]
            },
            Err(_) => xdg_data_home is None && home is None,
        },
{
    let mut below: Vec<String> = Vec::new();
    assert(text::text_views(below@) =~= Seq::empty());
    match xdg_data_home {
        Some(base) => {
            append_tachikaze_logos(&mut below);
            assert(text::text_views(below@) =~= seq!["tachikaze"@, "logos"@]);
            Ok(DictDir { base, below })
        },
        None => match home {
            Some(base) => {
                text::push_text(&mut below, ".local");
                text::push_text(&mut below, "share");
                append_tachikaze_logos(&mut below);
                assert(text::text_views(below@) =~= seq![
                    ".local"@,
                    "share"@,
                    "tachikaze"@,
                    "logos"@,
                ]);
                Ok(DictDir { base, below })
            },
            None => Err(NoHomeDirectory),
        },
    }
}

/// The place of the collection: the given one, or else the default. A directory for the data of
/// the user whose name is empty does not count.
pub fn resolve_dict_dir<P>(
    explicit: Option<P>,
    xdg_data_home: Option<P>,
    xdg_is_empty: bool,
    home: Option<P>,
) -> (r: Result<DictDir<P>, NoHomeDirectory>)
    ensures
        match r {
            Ok(dir) => {
                ||| explicit == Some(dir.base) && dir.below@.len() == 0
                ||| explicit is None && !xdg_is_empty && xdg_data_home == Some(dir.base)
                    && text::text_views(dir.below@) == seq!["tachikaze"@, "logos"@]
                ||| explicit is None && (xdg_is_empty || xdg_data_home is None) && home == Some(
                    dir.base,
                ) && text::text_views(dir.below@) == seq![
                    ".local"@,
                    "share"@,
                    "tachikaze"@,
                    "logos"@,
                ]
            },
            Err(_) => explicit is None && (xdg_is_empty || xdg_data_home is None) && home is None,
        },
{
    if let Some(base) = explicit {
        return Ok(DictDir { base, below: Vec::new() });
    }
    if xdg_is_empty {
        default_dict_dir(None, home)
    } else {
        default_dict_dir(xdg_data_home, home)
    }
}

/// The name of a file of the collection, at the given attempt to find a name that is not taken.
pub open spec fn file_name(stem: Seq<char>, attempt: nat) -> Seq<char> {
    if attempt <= 1 {
        stem + ".lgd"@
    } else {
        stem + "-"@ + text::decimal(attempt) + ".lgd"@
    }
}

/// The name of a file of the collection, at the given attempt to find a name that is not taken.
pub fn build_file_name(stem: &str, attempt: u32) -> (name: String)
    ensures
        name@ == file_name(stem@, attempt as nat),
{
    let mut name = String::new();
    name.append(stem);
    if attempt > 1 {
        name.append("-");
        text::push_u64(&mut name, attempt as u64);
    }
    name.append(".lgd");
    assert(name@ =~= file_name(stem@, attempt as nat));
    name
}

/// Each attempt gives another name, so that one is found that is not taken.
pub proof fn attempts_give_different_names(stem: Seq<char>, m: nat, n: nat)
    requires
        1 <= m < n,
    ensures
        file_name(stem, m) != file_name(stem, n),
{
    let a = file_name(stem, m);
    let b = file_name(stem, n);
    reveal_strlit(".lgd");
    reveal_strlit("-");
    let k = stem.len() as int;
    assert(b[k] == '-');
    if m == 1 {
        assert(a[k] == '.');
    } else if a == b {
        let dm = text::decimal(m);
        let dn = text::decimal(n);
        assert(a.len() == k + 1 + dm.len() + 4);
        assert(b.len() == k + 1 + dn.len() + 4);
        assert forall|i: int| 0 <= i < dm.len() implies dm[i] == dn[i] by {
            assert(a[k + 1 + i] == dm[i]);
            assert(b[k + 1 + i] == dn[i]);
        }
        assert(dm =~= dn);
        words::decimal_reads_back(m);
        words::decimal_reads_back(n);
    }
}

/// A logo was found in pictures of the given size.
pub open spec fn is_for_size(logo: &LogoData, video_size: VideoSize) -> bool {
    logo.imgw == video_size.width && logo.imgh == video_size.height
}

/// A logo was found in pictures of the given size.
pub fn matches_resolution(logo: &LogoData, video_size: VideoSize) -> (r: bool)
    ensures
        r == is_for_size(logo, video_size),
{
    logo.imgw >= 0 && logo.imgh >= 0 && logo.imgw as u32 == video_size.width && logo.imgh as u32
        == video_size.height
}

/// The rectangle of a logo within the picture in which it was found: it has pixels and lies
/// within the picture.
pub open spec fn is_crop_rect(logo: &LogoData, x: usize, y: usize, w: usize, h: usize) -> bool {
    &&& x == logo.imgx
    &&& y == logo.imgy
    &&& w == logo.w > 0
    &&& h == logo.h > 0
    &&& x + w <= logo.imgw
    &&& y + h <= logo.imgh
}

/// The rectangle of a logo within the picture in which it was found: position and size. `None`
/// where it has no pixels or does not lie within the picture.
pub fn candidate_crop_rect(logo: &LogoData) -> (r: Option<(usize, usize, usize, usize)>)
    ensures
        match r {
            Some((x, y, w, h)) => is_crop_rect(logo, x, y, w, h),
            None => {
                ||| logo.imgx < 0
                ||| logo.imgy < 0
                ||| logo.w <= 0
                ||| logo.h <= 0
                ||| logo.imgx + logo.w > logo.imgw
                ||| logo.imgy + logo.h > logo.imgh
            },
        },
{
    if logo.imgx < 0 || logo.imgy < 0 || logo.w <= 0 || logo.h <= 0 {
        return None;
    }
    if logo.imgx as i64 + logo.w as i64 > logo.imgw as i64 || logo.imgy as i64 + logo.h as i64
        > logo.imgh as i64 {
        return None;
    }
    Some((logo.imgx as usize, logo.imgy as usize, logo.w as usize, logo.h as usize))
}

/// The pixels of a rectangle of a frame.
pub open spec fn cropped(frame: Seq<u8>, frame_width: int, x: int, y: int, w: int, h: int) -> Seq<
    u8,
> {
    Seq::new((w * h) as nat, |i: int| frame[dilate::at(x + i % w, y + i / w, frame_width)])
}

/// The pixels of a rectangle of a frame.
pub fn crop_frame(
    frame: &[u8],
    frame_width: usize,
    x: usize,
    y: usize,
    w: usize,
    h: usize,
) -> (out: Vec<u8>)
    requires
        x + w <= frame_width,
        (y + h) * frame_width <= frame@.len(),
    ensures
        out@ == cropped(frame@, frame_width as int, x as int, y as int, w as int, h as int),
{
    let available: usize = frame.len();
    let ghost fw = frame_width as int;
    let ghost whole = cropped(frame@, fw, x as int, y as int, w as int, h as int);
    let mut out: Vec<u8> = Vec::new();
    if w == 0 {
        assert(w * h == 0) by (nonlinear_arith)
            requires
                w == 0,
        ;
        assert(out@ =~= whole);
        return out;
    }
    let mut row: usize = 0;
    assert(w * 0 == 0) by (nonlinear_arith);
    while row < h
        invariant
            w > 0,
            fw == frame_width,
            x + w <= frame_width,
            (y + h) * frame_width <= frame@.len() == available,
            row <= h,
            out@.len() == w * row,
            whole == cropped(frame@, fw, x as int, y as int, w as int, h as int),
            forall|i: int| 0 <= i < w * row ==> #[trigger] out@[i] == whole[i],
        decreases h - row,
    {
        proof {
            assert((y + row) * frame_width + frame_width <= (y + h) * frame_width && 0 <= (y + row)
                * frame_width && y + row <= (y + row) * frame_width) by (nonlinear_arith)
                requires
                    0 <= y,
                    0 <= row < h,
                    0 < frame_width,
            ;
            assert(w * (row + 1) == w * row + w && w * (row + 1) <= w * h && 0 <= w * row)
                by (nonlinear_arith)
                requires
                    0 <= row < h,
                    0 < w,
            ;
        }
        let start: usize = (y + row) * frame_width + x;
        let ghost before = out@;
        let mut k: usize = 0;
        while k < w
            invariant
                w > 0,
                fw == frame_width,
                row < h,
                start == (y + row) * frame_width + x,
                start + w <= frame@.len() == available,
                w * row + w <= w * h,
                0 <= w * row,
                k <= w,
                out@.len() == w * row + k,
                whole == cropped(frame@, fw, x as int, y as int, w as int, h as int),
                forall|i: int| 0 <= i < w * row + k ==> #[trigger] out@[i] == whole[i],
            decreases w - k,
        {
            proof {
                let i = w * row + k;
                assert(w * row == row * w) by (nonlinear_arith);
                vstd::arithmetic::div_mod::lemma_fundamental_div_mod_converse(
                    i,
                    w as int,
                    row as int,
                    k as int,
                );
                assert(whole[i] == frame@[dilate::at(x + k, y + row, fw)]);
                assert(dilate::at(x + k, y + row, fw) == start + k);
            }
            out.push(frame[start + k]);
            k += 1;
        }
        row += 1;
    }
    assert(out@ =~= whole);
    out
}

/// A frame does not have the size of the video.
#[derive(Debug, Clone, Copy, PartialEq, Eq, Structural)]
pub struct FrameLengthMismatch {
    pub actual: usize,
    pub video_size: VideoSize,
}

impl FrameLengthMismatch {
    /// The message for the user.
    pub open spec fn spec_message(self) -> Seq<char> {
        "stream_keyframes が渡したフレームのバイト数("@ + text::decimal(self.actual as nat)
            + ")が video_size("@ + text::decimal(self.video_size.width as nat) + "x"@
            + text::decimal(self.video_size.height as nat) + "="@ + text::decimal(
            (self.video_size.width * self.video_size.height) as nat,
        )
            + "バイト)と一致しません。呼び出し側の video_size 指定が実際のフレームと食い違っています。"@
    }

    /// The message for the user.
    pub fn message(&self) -> (m: String)
        ensures
            m@ == self.spec_message(),
    {
        let mut m = String::new();
        m.append("stream_keyframes が渡したフレームのバイト数(");
        text::push_u64(&mut m, self.actual as u64);
        m.append(")が video_size(");
        text::push_u64(&mut m, self.video_size.width as u64);
        m.append("x");
        text::push_u64(&mut m, self.video_size.height as u64);
        m.append("=");
        assert(0 <= self.video_size.width * self.video_size.height <= u32::MAX * u32::MAX)
            by (nonlinear_arith)
            requires
                0 <= self.video_size.width <= u32::MAX,
                0 <= self.video_size.height <= u32::MAX,
        ;
        text::push_u64(&mut m, self.video_size.width as u64 * self.video_size.height as u64);
        m.append(
            "バイト)と一致しません。呼び出し側の video_size 指定が実際のフレームと食い違っています。",
        );
        assert(m@ =~= self.spec_message());
        m
    }
}

/// Checks that a frame has the size of the video.
pub fn check_frame_length(actual: usize, video_size: VideoSize) -> (r: Result<
    (),
    FrameLengthMismatch,
>)
    ensures
        r == (if actual == video_size.width * video_size.height {
            Ok::<(), FrameLengthMismatch>(())
        } else {
            Err(FrameLengthMismatch { actual, video_size })
        }),
{
    assert(0 <= video_size.width * video_size.height <= u32::MAX * u32::MAX) by (nonlinear_arith)
        requires
            0 <= video_size.width <= u32::MAX,
            0 <= video_size.height <= u32::MAX,
    ;
    if actual as u64 == video_size.width as u64 * video_size.height as u64 {
        Ok(())
    } else {
        Err(FrameLengthMismatch { actual, video_size })
    }
}

/// The rectangle of a logo that is for the size of a video can be cut out of each frame of the
/// video, and what is cut out has the size of the logo.
pub proof fn matching_logo_can_be_cropped(
    logo: LogoData,
    video_size: VideoSize,
    x: usize,
    y: usize,
    w: usize,
    h: usize,
    frame: Seq<u8>,
)
    requires
        is_for_size(&logo, video_size),
        is_crop_rect(&logo, x, y, w, h),
        frame.len() == video_size.width * video_size.height,
    ensures
        x + w <= video_size.width,
        (y + h) * video_size.width <= frame.len(),
        cropped(frame, video_size.width as int, x as int, y as int, w as int, h as int).len()
            == logo.w * logo.h,
{
    assert((y + h) * video_size.width <= video_size.width * video_size.height)
        by (nonlinear_arith)
        requires
            0 <= y + h <= video_size.height,
            0 <= video_size.width,
    ;
    assert(w * h >= 0) by (nonlinear_arith)
        requires
            w >= 0,
            h >= 0,
    ;
}

/// The logo shows in a frame where the first correlation is above, and the second one less far
/// from 0 than, this: the bits of the floating-point number 0.2.
pub const FOUND_BITS: i32 = 0x3e4c_cccd;

/// The logo shows in a frame. `shown` is how much of the logo there is, as a number in the order
/// of the floating-point numbers; `left` is how far from 0 is what remains once the logo is taken
/// away, as the bits of a number that is not negative.
pub open spec fn is_found(shown: i32, left: u32) -> bool {
    shown > FOUND_BITS && left < FOUND_BITS
}

/// The logo shows in a frame.
pub fn found_in_frame(shown: i32, left: u32) -> (r: bool)
    ensures
        r == is_found(shown, left),
{
    shown > FOUND_BITS && left < FOUND_BITS as u32
}

/// In how many of the first `n` frames the logo shows.
pub open spec fn found_count(frames: Seq<(i32, u32)>, n: int) -> int
    decreases n,
{
    if n <= 0 {
        0
    } else {
        found_count(frames, n - 1) + (if is_found(frames[n - 1].0, frames[n - 1].1) {
            1int
        } else {
            0
        })
    }
}

/// In how many frames the logo shows.
pub fn count_found(frames: &Vec<(i32, u32)>) -> (n: usize)
    ensures
        n == found_count(frames@, frames@.len() as int),
        n <= frames@.len(),
{
    let mut n: usize = 0;
    let mut i: usize = 0;
    while i < frames.len()
        invariant
            i <= frames@.len(),
            n == found_count(frames@, i as int),
            n <= i,
        decreases frames@.len() - i,
    {
        let (shown, left): (i32, u32) = frames[i];
        if found_in_frame(shown, left) {
            n += 1;
        }
        i += 1;
    }
    n
}

/// How well a logo fits a video.
#[derive(Debug, Clone, Copy, PartialEq, Eq, Structural)]
pub struct CandidateScore {
    /// The lower the better: the bits of a floating-point number that is not negative, which
    /// are ordered as the numbers are.
    pub score: u64,
    /// The number of frames in which the logo was found.
    pub detected: usize,
    /// The number of frames.
    pub total: usize,
}

/// Videos of up to this many seconds are short: seven minutes, as the bits of a floating-point
/// number.
pub const SHORT_VIDEO_BITS: i64 = 0x407a_4000_0000_0000;

/// The share of frames in which a logo must be found, as a fraction: three in a hundred for
/// short videos, otherwise one in ten. `duration` is the length of the video in seconds, as a
/// number in the order of the floating-point numbers.
pub fn detection_threshold(duration: i64) -> (t: (u32, u32))
    ensures
        t == (if duration <= SHORT_VIDEO_BITS {
            (3u32, 100u32)
        } else {
            (1u32, 10u32)
        }),
        t.0 * 100 == 3 * t.1 <==> duration <= 0x407a_4000_0000_0000,
        t.0 * 10 == t.1 <==> duration > 0x407a_4000_0000_0000,
{
    if duration <= SHORT_VIDEO_BITS {
        (3, 100)
    } else {
        (1, 10)
    }
}

/// The logo was found in at least the given share of the frames; in a video without frames it
/// was found in none.
pub open spec fn is_detected(s: CandidateScore, threshold: (u32, u32)) -> bool {
    if s.total == 0 {
        threshold.0 == 0
    } else {
        s.detected * threshold.1 >= threshold.0 * s.total
    }
}

/// Logo `i` fits best: no other fits better, and none before it as well.
pub open spec fn is_best(scores: Seq<CandidateScore>, i: int) -> bool {
    &&& 0 <= i < scores.len()
    &&& forall|k: int| 0 <= k < i ==> scores[i].score < (#[trigger] scores[k]).score
    &&& forall|k: int| i <= k < scores.len() ==> scores[i].score <= (#[trigger] scores[k]).score
}

/// The logo that fits best, where it was found in enough frames. That one fits best does not
/// mean that it fits.
pub fn choose_best(scores: &[CandidateScore], threshold: (u32, u32)) -> (r: Option<usize>)
    ensures
        match r {
            Some(i) => is_best(scores@, i as int) && is_detected(scores@[i as int], threshold),
            None => {
                ||| scores@.len() == 0
                ||| exists|i: int|
                    #[trigger] is_best(scores@, i) && !is_detected(scores@[i], threshold)
            },
        },
{
    let n: usize = scores.len();
    if n == 0 {
        return None;
    }
    let mut best: usize = 0;
    let mut i: usize = 1;
    while i < n
        invariant
            n == scores@.len(),
            1 <= i <= n,
            best < i,
            forall|k: int|
                0 <= k < best ==> scores@[best as int].score < (#[trigger] scores@[k]).score,
            forall|k: int|
                best <= k < i ==> scores@[best as int].score <= (#[trigger] scores@[k]).score,
        decreases n - i,
    {
        if scores[i].score < scores[best].score {
            best = i;
        }
        i += 1;
    }
    assert(is_best(scores@, best as int));
    let s: CandidateScore = scores[best];
    let detected: bool = if s.total == 0 {
        threshold.0 == 0
    } else {
        proof {
            assert(0 <= s.detected * threshold.1 <= usize::MAX * u32::MAX) by (nonlinear_arith)
                requires
                    0 <= s.detected <= usize::MAX,
                    0 <= threshold.1 <= u32::MAX,
            ;
            assert(0 <= threshold.0 * s.total <= u32::MAX * usize::MAX) by (nonlinear_arith)
                requires
                    0 <= s.total <= usize::MAX,
                    0 <= threshold.0 <= u32::MAX,
            ;
        }
        s.detected as u128 * threshold.1 as u128 >= threshold.0 as u128 * s.total as u128
    };
    if detected {
        Some(best)
    } else {
        None
    }
}

} // verus!
