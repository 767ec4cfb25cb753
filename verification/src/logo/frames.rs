//! Luma frames of a video: where the logo is in them, how ffmpeg is asked for them, and how
//! its output is divided into frames.

use crate::text;
use vstd::prelude::*;

verus! {

/// The rectangle of a logo, in pixels from the top left of the picture.
#[derive(Debug, Clone, Copy, PartialEq, Eq, Structural)]
pub struct LogoRect {
    pub x: u32,
    pub y: u32,
    pub w: u32,
    pub h: u32,
}

/// The size of a picture.
#[derive(Debug, Clone, Copy, PartialEq, Eq, Structural)]
pub struct VideoSize {
    pub width: u32,
    pub height: u32,
}

/// Why frames cannot be asked for.
#[derive(Debug, Clone, Copy, PartialEq, Eq, Structural)]
pub enum RectError {
    /// The rectangle has no pixels.
    ZeroSize { w: u32, h: u32 },
    /// The rectangle does not lie within the picture.
    OutsideVideo { rect: LogoRect, width: u32, height: u32 },
    /// The picture has no pixels.
    ZeroVideo { width: u32, height: u32 },
}

impl LogoRect {
    /// The rectangle lies within a picture of the given size.
    pub open spec fn fits_in(self, width: u32, height: u32) -> bool {
        self.x + self.w <= width && self.y + self.h <= height
    }

    /// Checks that the rectangle has pixels and lies within the picture.
    pub fn validate(self, video_width: u32, video_height: u32) -> (r: Result<(), RectError>)
        ensures
            r == (if self.w == 0 || self.h == 0 {
                Err::<(), RectError>(RectError::ZeroSize { w: self.w, h: self.h })
            } else if !self.fits_in(video_width, video_height) {
                Err(RectError::OutsideVideo { rect: self, width: video_width, height: video_height })
            } else {
                Ok(())
            }),
    {
        if self.w == 0 || self.h == 0 {
            return Err(RectError::ZeroSize { w: self.w, h: self.h });
        }
        let right_fits: bool = match self.x.checked_add(self.w) {
            Some(right) => right <= video_width,
            None => false,
        };
        let bottom_fits: bool = match self.y.checked_add(self.h) {
            Some(bottom) => bottom <= video_height,
            None => false,
        };
        if !right_fits || !bottom_fits {
            return Err(
                RectError::OutsideVideo { rect: self, width: video_width, height: video_height },
            );
        }
        Ok(())
    }

    /// The number of bytes of a frame: one for each pixel.
    pub fn frame_bytes(self) -> (n: usize)
        requires
            self.w * self.h <= usize::MAX,
        ensures
            n == self.w * self.h,
    {
        self.w as usize * self.h as usize
    }
}

impl VideoSize {
    /// The number of bytes of a frame. A picture without pixels is an error: ffmpeg would
    /// write to a pipe that nobody reads.
    pub fn frame_bytes(self) -> (r: Result<usize, RectError>)
        requires
            self.width * self.height <= usize::MAX,
        ensures
            match r {
                Ok(n) => n == self.width * self.height && n > 0,
                Err(e) => {
                    &&& self.width == 0 || self.height == 0
                    &&& e == RectError::ZeroVideo { width: self.width, height: self.height }
                },
            },
    {
        let n: usize = self.width as usize * self.height as usize;
        proof {
            assert(self.width * self.height == 0 <==> self.width == 0 || self.height == 0)
                by (nonlinear_arith)
                requires
                    0 <= self.width,
                    0 <= self.height,
            ;
        }
        if n == 0 {
            return Err(RectError::ZeroVideo { width: self.width, height: self.height });
        }
        Ok(n)
    }
}

impl RectError {
    /// The message for the user.
    pub open spec fn spec_message(self) -> Seq<char> {
        match self {
            RectError::ZeroSize { w, h } => {
                "ロゴ矩形の幅・高さは正の値である必要があります: w="@ + text::decimal(w as nat)
                    + ", h="@ + text::decimal(h as nat)
            },
            RectError::OutsideVideo { rect, width, height } => {
                "ロゴ矩形が映像範囲の外に出ています: 矩形=(x="@ + text::decimal(rect.x as nat)
                    + ", y="@ + text::decimal(rect.y as nat) + ", w="@ + text::decimal(
                    rect.w as nat,
                ) + ", h="@ + text::decimal(rect.h as nat) + "), 映像=("@ + text::decimal(
                    width as nat,
                ) + "x"@ + text::decimal(height as nat)
                    + ")。x+w<=映像幅 かつ y+h<=映像高さ である必要があります。"@
            },
            RectError::ZeroVideo { width, height } => {
                "映像サイズが不正です: width="@ + text::decimal(width as nat) + ", height="@
                    + text::decimal(height as nat)
                    + "。0を含む値のまま ffmpeg を起動すると1フレームのバイト数が0になり、誰も読まない標準出力パイプが埋まって `wait()` が返らずハングします。"@
            },
        }
    }

    /// The message for the user.
    pub fn message(&self) -> (m: String)
        ensures
            m@ == self.spec_message(),
    {
        let mut m = String::new();
        match self {
            RectError::ZeroSize { w, h } => {
                m.append("ロゴ矩形の幅・高さは正の値である必要があります: w=");
                text::push_u64(&mut m, *w as u64);
                m.append(", h=");
                text::push_u64(&mut m, *h as u64);
            },
            RectError::OutsideVideo { rect, width, height } => {
                m.append("ロゴ矩形が映像範囲の外に出ています: 矩形=(x=");
                text::push_u64(&mut m, rect.x as u64);
                m.append(", y=");
                text::push_u64(&mut m, rect.y as u64);
                m.append(", w=");
                text::push_u64(&mut m, rect.w as u64);
                m.append(", h=");
                text::push_u64(&mut m, rect.h as u64);
                m.append("), 映像=(");
                text::push_u64(&mut m, *width as u64);
                m.append("x");
                text::push_u64(&mut m, *height as u64);
                m.append(")。x+w<=映像幅 かつ y+h<=映像高さ である必要があります。");
            },
            RectError::ZeroVideo { width, height } => {
                m.append("映像サイズが不正です: width=");
                text::push_u64(&mut m, *width as u64);
                m.append(", height=");
                text::push_u64(&mut m, *height as u64);
                m.append(
                    "。0を含む値のまま ffmpeg を起動すると1フレームのバイト数が0になり、誰も読まない標準出力パイプが埋まって `wait()` が返らずハングします。",
                );
            },
        }
        assert(m@ =~= self.spec_message());
        m
    }
}

/// The arguments of a run of ffmpeg, before and after the path of the input.
pub struct FfmpegArgs {
    pub before_input: Vec<String>,
    pub after_input: Vec<String>,
}

/// Which frames ffmpeg is asked for.
pub enum FrameRequest {
    /// All frames, cropped to a rectangle.
    All { rect: LogoRect },
    /// The key frames, in full.
    Keyframes,
    /// The key frames, cropped to a rectangle.
    KeyframesCropped { rect: LogoRect },
    /// `count` frames from a time on, cropped to a rectangle. The time is in seconds.
    Range { rect: LogoRect, seek: String, count: u64 },
    /// All frames from a time on, cropped to a rectangle. The time is in seconds.
    FromSeek { rect: LogoRect, seek: String },
}

impl FrameRequest {
    /// The rectangle that frames are cropped to.
    pub open spec fn spec_rect(&self) -> Option<LogoRect> {
        match self {
            FrameRequest::All { rect } => Some(*rect),
            FrameRequest::Keyframes => None,
            FrameRequest::KeyframesCropped { rect } => Some(*rect),
            FrameRequest::Range { rect, .. } => Some(*rect),
            FrameRequest::FromSeek { rect, .. } => Some(*rect),
        }
    }

    /// The options that come before the input: those of the decoder and of seeking, which
    /// would mean something else behind it.
    pub open spec fn input_options(&self) -> Seq<Seq<char>> {
        match self {
            FrameRequest::All { .. } => Seq::empty(),
            FrameRequest::Keyframes => seq!["-skip_frame"@, "nokey"@],
            FrameRequest::KeyframesCropped { .. } => seq!["-skip_frame"@, "nokey"@],
            FrameRequest::Range { seek, .. } => seq!["-ss"@, seek@],
            FrameRequest::FromSeek { seek, .. } => seq!["-ss"@, seek@],
        }
    }

    /// The filter options.
    pub open spec fn filter_options(&self) -> Seq<Seq<char>> {
        match self.spec_rect() {
            Some(rect) => seq!["-vf"@, crop_filter(rect)],
            None => Seq::empty(),
        }
    }

    /// The options that limit the number of frames.
    pub open spec fn count_options(&self) -> Seq<Seq<char>> {
        match self {
            FrameRequest::Range { count, .. } => seq!["-frames:v"@, text::decimal(*count as nat)],
            _ => Seq::empty(),
        }
    }

    /// All arguments before the path of the input.
    pub open spec fn args_before(&self) -> Seq<Seq<char>> {
        seq!["-hide_banner"@, "-loglevel"@, "error"@] + self.input_options() + seq!["-i"@]
    }

    /// All arguments after the path of the input.
    pub open spec fn args_after(&self) -> Seq<Seq<char>> {
        seq!["-map"@, "0:v:0"@, "-an"@, "-sn"@] + self.filter_options() + seq![
            "-pix_fmt"@,
            "gray"@,
            "-fps_mode"@,
            "passthrough"@,
        ] + self.count_options() + seq!["-f"@, "rawvideo"@, "-"@]
    }
}

/// The filter that crops to a rectangle.
pub open spec fn crop_filter(rect: LogoRect) -> Seq<char> {
    "crop="@ + text::decimal(rect.w as nat) + ":"@ + text::decimal(rect.h as nat) + ":"@
        + text::decimal(rect.x as nat) + ":"@ + text::decimal(rect.y as nat)
}

fn build_crop_filter(rect: LogoRect) -> (filter: String)
    ensures
        filter@ == crop_filter(rect),
{
    let mut filter = String::new();
    filter.append("crop=");
    text::push_u64(&mut filter, rect.w as u64);
    filter.append(":");
    text::push_u64(&mut filter, rect.h as u64);
    filter.append(":");
    text::push_u64(&mut filter, rect.x as u64);
    filter.append(":");
    text::push_u64(&mut filter, rect.y as u64);
    assert(filter@ =~= crop_filter(rect));
    filter
}

/// The arguments with which ffmpeg writes the requested frames, as luma planes of one byte
/// per pixel, to its standard output.
pub fn build_ffmpeg_args(request: &FrameRequest) -> (args: FfmpegArgs)
    ensures
        text::text_views(args.before_input@) == request.args_before(),
        text::text_views(args.after_input@) == request.args_after(),
{
    let mut before: Vec<String> = Vec::new();
    assert(text::text_views(before@) =~= Seq::empty());
    text::push_text(&mut before, "-hide_banner");
    text::push_text(&mut before, "-loglevel");
    text::push_text(&mut before, "error");
    match request {
        FrameRequest::All { .. } => {},
        FrameRequest::Keyframes | FrameRequest::KeyframesCropped { .. } => {
            text::push_text(&mut before, "-skip_frame");
            text::push_text(&mut before, "nokey");
        },
        FrameRequest::Range { seek, .. } => {
            text::push_text(&mut before, "-ss");
            text::push_text(&mut before, seek.as_str());
        },
        FrameRequest::FromSeek { seek, .. } => {
            text::push_text(&mut before, "-ss");
            text::push_text(&mut before, seek.as_str());
        },
    }
    text::push_text(&mut before, "-i");
    assert(text::text_views(before@) =~= request.args_before());

    let mut after: Vec<String> = Vec::new();
    assert(text::text_views(after@) =~= Seq::empty());
    text::push_text(&mut after, "-map");
    text::push_text(&mut after, "0:v:0");
    text::push_text(&mut after, "-an");
    text::push_text(&mut after, "-sn");
    let rect: Option<LogoRect> = match request {
        FrameRequest::All { rect } => Some(*rect),
        FrameRequest::Keyframes => None,
        FrameRequest::KeyframesCropped { rect } => Some(*rect),
        FrameRequest::Range { rect, .. } => Some(*rect),
        FrameRequest::FromSeek { rect, .. } => Some(*rect),
    };
    if let Some(rect) = rect {
        text::push_text(&mut after, "-vf");
        text::push_text(&mut after, build_crop_filter(rect).as_str());
    }
    text::push_text(&mut after, "-pix_fmt");
    text::push_text(&mut after, "gray");
    text::push_text(&mut after, "-fps_mode");
    text::push_text(&mut after, "passthrough");
    if let FrameRequest::Range { count, .. } = request {
        text::push_text(&mut after, "-frames:v");
        text::push_text(&mut after, text::u64_text(*count).as_str());
    }
    text::push_text(&mut after, "-f");
    text::push_text(&mut after, "rawvideo");
    text::push_text(&mut after, "-");
    assert(text::text_views(after@) =~= request.args_after());
    FfmpegArgs { before_input: before, after_input: after }
}

/// What is wrong with the output of ffmpeg.
#[derive(Debug, Clone, Copy, PartialEq, Eq, Structural)]
pub enum FrameStreamError {
    /// It ends within a frame.
    PartialFrame { frame_bytes: usize, frame_count: u64, partial: usize },
    /// It has another number of frames than expected.
    FrameCount { frame_count: u64, expected: u64 },
    /// It has no frame at all.
    NoKeyframe,
}

impl FrameStreamError {
    /// The message for the user.
    pub open spec fn spec_message(self) -> Seq<char> {
        match self {
            FrameStreamError::PartialFrame { frame_bytes, frame_count, partial } => {
                "ffmpeg の出力が1フレーム分のバイト数("@ + text::decimal(frame_bytes as nat)
                    + "バイト)の倍数になっていません: フレーム"@ + text::decimal(
                    frame_count as nat,
                ) + "個目の途中、実際は"@ + text::decimal(partial as nat)
                    + "バイトで終わっています。ロゴ矩形の座標や crop フィルタの指定を確認してください。"@
            },
            FrameStreamError::FrameCount { frame_count, expected } => {
                "ffmpeg から読み取ったフレーム数("@ + text::decimal(frame_count as nat)
                    + ")が .dtvi の frame_count("@ + text::decimal(expected as nat)
                    + ")と一致しません。この不一致を無視して後続のロゴ検出に進むと、ロゴ区間だけがフレーム数ぶんずれた Trim が出て、CM の位置が黙ってずれます（join_logo_scp はこのずれをエラーにしません）。"@
            },
            FrameStreamError::NoKeyframe => {
                "ffmpeg からキーフレームを1枚も読み取れませんでした。`-skip_frame nokey` の指定が効いていない可能性があります。黙って0枚のまま後続のロゴ矩形推定に進むと、実際にはロゴがあっても「ロゴ無し」と誤判定されるだけで気づけません。"@
            },
        }
    }

    /// The message for the user.
    pub fn message(&self) -> (m: String)
        ensures
            m@ == self.spec_message(),
    {
        let mut m = String::new();
        match self {
            FrameStreamError::PartialFrame { frame_bytes, frame_count, partial } => {
                m.append("ffmpeg の出力が1フレーム分のバイト数(");
                text::push_u64(&mut m, *frame_bytes as u64);
                m.append("バイト)の倍数になっていません: フレーム");
                text::push_u64(&mut m, *frame_count);
                m.append("個目の途中、実際は");
                text::push_u64(&mut m, *partial as u64);
                m.append(
                    "バイトで終わっています。ロゴ矩形の座標や crop フィルタの指定を確認してください。",
                );
            },
            FrameStreamError::FrameCount { frame_count, expected } => {
                m.append("ffmpeg から読み取ったフレーム数(");
                text::push_u64(&mut m, *frame_count);
                m.append(")が .dtvi の frame_count(");
                text::push_u64(&mut m, *expected);
                m.append(
                    ")と一致しません。この不一致を無視して後続のロゴ検出に進むと、ロゴ区間だけがフレーム数ぶんずれた Trim が出て、CM の位置が黙ってずれます（join_logo_scp はこのずれをエラーにしません）。",
                );
            },
            FrameStreamError::NoKeyframe => {
                m.append(
                    "ffmpeg からキーフレームを1枚も読み取れませんでした。`-skip_frame nokey` の指定が効いていない可能性があります。黙って0枚のまま後続のロゴ矩形推定に進むと、実際にはロゴがあっても「ロゴ無し」と誤判定されるだけで気づけません。",
                );
            },
        }
        assert(m@ =~= self.spec_message());
        m
    }
}

/// Divides a stream of bytes, which arrives in pieces of any size, into frames of equal size.
pub struct FrameSplitter {
    frame_bytes: usize,
    partial: Vec<u8>,
    frame_count: u64,
    received: Ghost<Seq<u8>>,
}

/// Frame `i` of a stream.
pub open spec fn frame_of(stream: Seq<u8>, frame_bytes: nat, i: int) -> Seq<u8> {
    stream.subrange(i * frame_bytes, (i + 1) * frame_bytes)
}

/// What a stream of frames is found to be at its end: the number of its frames, or that it ends
/// within a frame.
pub open spec fn frames_in(stream: Seq<u8>, frame_bytes: usize) -> Result<u64, FrameStreamError>
    recommends
        frame_bytes > 0,
{
    let frame_count = (stream.len() / frame_bytes as nat) as u64;
    let partial = (stream.len() % frame_bytes as nat) as usize;
    if partial == 0 {
        Ok(frame_count)
    } else {
        Err(FrameStreamError::PartialFrame { frame_bytes, frame_count, partial })
    }
}

/// As [`frames_in`]; another number of frames than expected is an error.
pub open spec fn expected_frames_in(
    stream: Seq<u8>,
    frame_bytes: usize,
    expected: u64,
) -> Result<u64, FrameStreamError> {
    match frames_in(stream, frame_bytes) {
        Ok(frame_count) if frame_count != expected => Err(
            FrameStreamError::FrameCount { frame_count, expected },
        ),
        found => found,
    }
}

/// As [`frames_in`]; a stream without frames is an error.
pub open spec fn keyframes_in(stream: Seq<u8>, frame_bytes: usize) -> Result<u64, FrameStreamError> {
    match frames_in(stream, frame_bytes) {
        Ok(frame_count) if frame_count == 0 => Err(FrameStreamError::NoKeyframe),
        found => found,
    }
}

impl FrameSplitter {
    /// The state fits the bytes that were received.
    pub closed spec fn well_formed(&self) -> bool {
        &&& self.frame_bytes > 0
        &&& self.partial@.len() < self.frame_bytes
        &&& self.received@.len() == self.frame_count * self.frame_bytes + self.partial@.len()
        &&& self.partial@ == self.received@.skip(self.frame_count * self.frame_bytes)
    }

    /// All bytes that were received.
    pub closed spec fn stream(&self) -> Seq<u8> {
        self.received@
    }

    /// The number of bytes of a frame.
    pub closed spec fn size(&self) -> usize {
        self.frame_bytes
    }

    /// The number of frames that are complete.
    pub closed spec fn complete(&self) -> u64 {
        self.frame_count
    }

    /// Starts a stream of frames of `frame_bytes` bytes.
    pub fn new(frame_bytes: usize) -> (s: Self)
        requires
            frame_bytes > 0,
        ensures
            s.well_formed(),
            s.stream() == Seq::<u8>::empty(),
            s.size() == frame_bytes,
            s.complete() == 0,
    {
        let s = Self {
            frame_bytes,
            partial: Vec::new(),
            frame_count: 0,
            received: Ghost(Seq::empty()),
        };
        assert(s.frame_count * s.frame_bytes == 0) by (nonlinear_arith)
            requires
                s.frame_count == 0,
        ;
        assert(s.partial@ =~= s.received@.skip(0));
        s
    }

    /// How many bytes are missing from the current frame.
    pub fn wanted(&self) -> (n: usize)
        requires
            self.well_formed(),
        ensures
            0 < n <= self.size(),
            self.stream().len() + n == (self.complete() + 1) * self.size(),
    {
        assert((self.frame_count + 1) * self.frame_bytes == self.frame_count * self.frame_bytes
            + self.frame_bytes) by (nonlinear_arith);
        self.frame_bytes - self.partial.len()
    }

    /// Receives the next bytes of the stream, as far as the end of the current frame at most.
    /// Returns the frame when these bytes complete it.
    pub fn accept(&mut self, bytes: &[u8]) -> (frame: Option<Vec<u8>>)
        requires
            old(self).well_formed(),
            old(self).stream().len() + bytes@.len() <= (old(self).complete() + 1) * old(
                self,
            ).size(),
            old(self).complete() < u64::MAX,
        ensures
            final(self).well_formed(),
            final(self).size() == old(self).size(),
            final(self).stream() == old(self).stream() + bytes@,
            match frame {
                Some(frame) => {
                    &&& final(self).stream().len() == (old(self).complete() + 1) * old(self).size()
                    &&& final(self).complete() == old(self).complete() + 1
                    &&& frame@ == frame_of(
                        final(self).stream(),
                        old(self).size() as nat,
                        old(self).complete() as int,
                    )
                },
                None => {
                    &&& final(self).stream().len() < (old(self).complete() + 1) * old(self).size()
                    &&& final(self).complete() == old(self).complete()
                },
            },
    {
        proof {
            assert((self.frame_count + 1) * self.frame_bytes == self.frame_count * self.frame_bytes
                + self.frame_bytes) by (nonlinear_arith);
            assert(0 <= self.frame_count * self.frame_bytes) by (nonlinear_arith);
        }
        let ghost start: int = self.frame_count * self.frame_bytes;
        let ghost before: Seq<u8> = self.received@;
        self.partial.extend_from_slice(bytes);
        self.received = Ghost(before + bytes@);
        assert(self.partial@ =~= self.received@.skip(start));
        if self.partial.len() < self.frame_bytes {
            return None;
        }
        let mut frame: Vec<u8> = Vec::new();
        std::mem::swap(&mut frame, &mut self.partial);
        self.frame_count = self.frame_count + 1;
        proof {
            let size = self.frame_bytes as nat;
            assert(frame@ =~= self.received@.subrange(start, start + size));
            assert(self.partial@ =~= self.received@.skip(start + size));
        }
        Some(frame)
    }

    /// What the stream is found to be when it ends here: the number of its frames, or that it
    /// ends within a frame.
    pub fn read_luma_frames(&self) -> (r: Result<u64, FrameStreamError>)
        requires
            self.well_formed(),
        ensures
            r == frames_in(self.stream(), self.size()),
    {
        proof {
            vstd::arithmetic::div_mod::lemma_fundamental_div_mod_converse(
                self.received@.len() as int,
                self.frame_bytes as int,
                self.frame_count as int,
                self.partial@.len() as int,
            );
        }
        let partial: usize = self.partial.len();
        if partial != 0 {
            return Err(
                FrameStreamError::PartialFrame {
                    frame_bytes: self.frame_bytes,
                    frame_count: self.frame_count,
                    partial,
                },
            );
        }
        Ok(self.frame_count)
    }

    /// As [`FrameSplitter::read_luma_frames`]; another number of frames than expected is an
    /// error, since every later frame number would be off.
    pub fn read_frames(&self, expected_frame_count: u64) -> (r: Result<u64, FrameStreamError>)
        requires
            self.well_formed(),
        ensures
            r == expected_frames_in(self.stream(), self.size(), expected_frame_count),
    {
        let frame_count: u64 = match self.read_luma_frames() {
            Ok(frame_count) => frame_count,
            Err(e) => return Err(e),
        };
        if frame_count != expected_frame_count {
            return Err(
                FrameStreamError::FrameCount { frame_count, expected: expected_frame_count },
            );
        }
        Ok(frame_count)
    }

    /// As [`FrameSplitter::read_luma_frames`]; a stream without frames is an error.
    pub fn read_keyframe_frames(&self) -> (r: Result<u64, FrameStreamError>)
        requires
            self.well_formed(),
        ensures
            r == keyframes_in(self.stream(), self.size()),
    {
        let frame_count: u64 = match self.read_luma_frames() {
            Ok(frame_count) => frame_count,
            Err(e) => return Err(e),
        };
        if frame_count == 0 {
            return Err(FrameStreamError::NoKeyframe);
        }
        Ok(frame_count)
    }
}

/// Every byte of a stream of whole frames is in exactly the frame that its position gives, at
/// the place that its position gives.
pub proof fn frames_hold_all_bytes(stream: Seq<u8>, frame_bytes: nat, i: int)
    requires
        frame_bytes > 0,
        stream.len() % frame_bytes == 0,
        0 <= i < stream.len(),
    ensures
        0 <= i / frame_bytes as int,
        i / (frame_bytes as int) < stream.len() / frame_bytes,
        frame_of(stream, frame_bytes, i / (frame_bytes as int)).len() == frame_bytes,
        frame_of(stream, frame_bytes, i / (frame_bytes as int))[i % (frame_bytes as int)]
            == stream[i],
{
    let size = frame_bytes as int;
    let k = i / size;
    let n = (stream.len() / frame_bytes) as int;
    vstd::arithmetic::div_mod::lemma_fundamental_div_mod(i, size);
    vstd::arithmetic::div_mod::lemma_fundamental_div_mod(stream.len() as int, size);
    vstd::arithmetic::div_mod::lemma_mod_bound(i, size);
    assert(k >= 0 && k < n) by (nonlinear_arith)
        requires
            0 <= i < size * n,
            i == size * k + i % size,
            0 <= i % size < size,
            size > 0,
    ;
    assert((k + 1) * size == k * size + size && k * size == size * k) by (nonlinear_arith);
    assert((k + 1) * size <= n * size && n * size == size * n && 0 <= k * size)
        by (nonlinear_arith)
        requires
            0 <= k < n,
            size > 0,
    ;
}

/// How the reading of the frames ended.
#[derive(Debug, Clone, Copy, PartialEq, Eq, Structural)]
pub enum ReadEnd {
    /// All frames were read.
    Complete,
    /// The stream ended, and is not what it should be.
    Protocol,
    /// The receiver of the frames failed before the stream ended.
    Callback,
}

/// What a run of ffmpeg amounts to.
#[derive(Debug, Clone, Copy, PartialEq, Eq, Structural)]
pub enum StreamOutcome {
    /// The frames were read.
    Frames,
    /// The failure of ffmpeg.
    WaitError,
    /// The error of the stream.
    ProtocolError,
    /// The error of the receiver.
    CallbackError,
}

impl ReadEnd {
    /// ffmpeg must be killed before it is waited for: it may still be writing to a pipe that
    /// nobody reads.
    pub fn needs_kill(self) -> (kill: bool)
        ensures
            kill == (self == ReadEnd::Callback),
    {
        match self {
            ReadEnd::Callback => true,
            _ => false,
        }
    }

    /// What a run amounts to, by how the reading ended and whether ffmpeg ended well. The
    /// failure of ffmpeg goes before an error of the stream, whose cause it is; the failure of
    /// a killed ffmpeg means nothing.
    pub fn finish_stream(self, ffmpeg_ended_well: bool) -> (outcome: StreamOutcome)
        ensures
            outcome == StreamOutcome::Frames <==> self == ReadEnd::Complete && ffmpeg_ended_well,
            outcome == StreamOutcome::WaitError <==> self != ReadEnd::Callback
                && !ffmpeg_ended_well,
            outcome == StreamOutcome::ProtocolError <==> self == ReadEnd::Protocol
                && ffmpeg_ended_well,
            outcome == StreamOutcome::CallbackError <==> self == ReadEnd::Callback,
    {
        match self {
            ReadEnd::Protocol => if ffmpeg_ended_well {
                StreamOutcome::ProtocolError
            } else {
                StreamOutcome::WaitError
            },
            ReadEnd::Callback => StreamOutcome::CallbackError,
            ReadEnd::Complete => if ffmpeg_ended_well {
                StreamOutcome::Frames
            } else {
                StreamOutcome::WaitError
            },
        }
    }
}

} // verus!
