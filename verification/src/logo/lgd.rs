//! Logo data files (`.lgd`).
//!
//! A file has two parts. The base part is 28 bytes of text, the number of logos, a header
//! of 48 bytes with the size of the logo as 16-bit numbers, and 12 bytes per pixel. The
//! extended part is a header of 540 bytes and six planes of 32-bit floating-point numbers.
//! The extended part is found by skipping the pixels of the base part. Numbers have the
//! least significant byte first, except for the number of logos.
//!
//! | offset | type | field of the extended header |
//! |---|---|---|
//! | 0 | `u32` | magic number |
//! | 4 | `i32` | version |
//! | 8, 12 | `i32` | `w`, `h` |
//! | 16, 20 | `i32` | `log_uv_x`, `log_uv_y` |
//! | 24, 28 | `i32` | `imgw`, `imgh` |
//! | 32, 36 | `i32` | `imgx`, `imgy` |
//! | 40 | 255 bytes | name, up to the first NUL |
//! | 295 | 1 byte | padding |
//! | 296 | `i32` | service id |
//! | 300 | 240 bytes | reserved |
//!
//! Plane values are held as the 32 bits that stand for them: no arithmetic is done on them
//! here.

use crate::bytes;
use crate::text;
use vstd::prelude::*;

verus! {

/// The length of the fixed part of the base part.
pub const BASE_FIXED_LEN: usize = 80;

/// The number of bytes of a pixel of the base part.
pub const BASE_LOGO_PIXEL_SIZE: usize = 12;

/// The length of the extended header, with the byte of padding behind the name.
pub const LOGO_HEADER_LEN: usize = 540;

/// The magic number of the extended header.
pub const MAGIC: u32 = 0x0001_2345;

/// The length of the name field.
pub const NAME_LEN: usize = 255;

/// The extended part of a logo data file.
#[derive(Debug, Clone, PartialEq, Eq)]
pub struct LogoData {
    /// The width of the logo.
    pub w: i32,
    /// The height of the logo.
    pub h: i32,
    /// Chroma planes are `w >> log_uv_x` wide.
    pub log_uv_x: i32,
    /// Chroma planes are `h >> log_uv_y` high.
    pub log_uv_y: i32,
    /// The width of the picture in which the logo was found.
    pub imgw: i32,
    /// The height of the picture in which the logo was found.
    pub imgh: i32,
    /// The horizontal position of the logo in that picture.
    pub imgx: i32,
    /// The vertical position of the logo in that picture.
    pub imgy: i32,
    pub name: String,
    pub service_id: i32,
    /// Coefficients of the luma plane, row by row: the background is
    /// `a * observed + b * maximum`.
    pub a_y: Vec<u32>,
    pub b_y: Vec<u32>,
    /// Coefficients of the Cb plane.
    pub a_u: Vec<u32>,
    pub b_u: Vec<u32>,
    /// Coefficients of the Cr plane.
    pub a_v: Vec<u32>,
    pub b_v: Vec<u32>,
}

/// The contents of a [`LogoData`].
pub struct LogoView {
    pub w: i32,
    pub h: i32,
    pub log_uv_x: i32,
    pub log_uv_y: i32,
    pub imgw: i32,
    pub imgh: i32,
    pub imgx: i32,
    pub imgy: i32,
    pub name: Seq<char>,
    pub service_id: i32,
    pub a_y: Seq<u32>,
    pub b_y: Seq<u32>,
    pub a_u: Seq<u32>,
    pub b_u: Seq<u32>,
    pub a_v: Seq<u32>,
    pub b_v: Seq<u32>,
}

impl View for LogoData {
    type V = LogoView;

    open spec fn view(&self) -> LogoView {
        LogoView {
            w: self.w,
            h: self.h,
            log_uv_x: self.log_uv_x,
            log_uv_y: self.log_uv_y,
            imgw: self.imgw,
            imgh: self.imgh,
            imgx: self.imgx,
            imgy: self.imgy,
            name: self.name@,
            service_id: self.service_id,
            a_y: self.a_y@,
            b_y: self.b_y@,
            a_u: self.a_u@,
            b_u: self.b_u@,
            a_v: self.a_v@,
            b_v: self.b_v@,
        }
    }
}

/// Why a logo data file is rejected.
#[derive(Debug, Clone, Copy, PartialEq, Eq, Structural)]
pub enum LgdParseError {
    /// The file ends within the fixed part of the base part.
    TooShortForBaseHeader { actual: usize },
    /// The file ends within the pixels of the base part.
    TooShortForBasePixels { needed: u64, actual: usize },
    /// The file ends within the extended header.
    TooShortForExtendedHeader { needed: u64, actual: usize },
    /// The magic number is wrong.
    MagicMismatch { found: u32 },
    /// The two headers give different sizes.
    BaseExtendedSizeMismatch { base_w: i16, base_h: i16, ext_w: i32, ext_h: i32 },
    /// The logo has no pixels.
    NonPositiveSize { w: i32, h: i32 },
    /// The size of the chroma planes cannot be computed.
    InvalidChromaShift { log_uv_x: i32, log_uv_y: i32 },
    /// The file ends within the planes.
    TooShortForFloatPlanes { needed: u64, actual: usize },
}

/// What `String::from_utf8_lossy` makes of bytes.
pub uninterp spec fn lossy_text(bytes: Seq<u8>) -> Seq<char>;

/// Calls `String::from_utf8_lossy`. It replaces what is no UTF-8, in a way that depends on
/// the bytes alone, and takes valid UTF-8 as it is.
#[verifier::external_body]
fn decode_lossy(bytes: &[u8]) -> (text: String)
    ensures
        text@ == lossy_text(bytes@),
        vstd::utf8::valid_utf8(bytes@) ==> vstd::utf8::encode_utf8(text@) == bytes@,
{
    String::from_utf8_lossy(bytes).into_owned()
}

/// The text that the bytes of a name stand for. Bytes that are no UTF-8 are replaced.
pub open spec fn name_text(b: Seq<u8>) -> Seq<char> {
    if vstd::utf8::valid_utf8(b) {
        vstd::utf8::decode_utf8(b)
    } else {
        lossy_text(b)
    }
}

/// The position of the first NUL of `s`, from position `i` on.
pub open spec fn nul_from(s: Seq<u8>, i: int) -> int
    decreases s.len() - i,
{
    if i >= s.len() || s[i] == 0 {
        i
    } else {
        nul_from(s, i + 1)
    }
}

/// The bytes of `s` before the first NUL.
pub open spec fn until_nul(s: Seq<u8>) -> Seq<u8> {
    s.take(nul_from(s, 0))
}

/// `count` numbers that start at `at`.
pub open spec fn plane_at(b: Seq<u8>, at: int, count: int) -> Seq<u32> {
    Seq::new(count as nat, |i: int| bytes::le32_at(b, at + 4 * i))
}

/// The number of values of a luma plane.
pub open spec fn luma_count(w: i32, h: i32) -> int {
    w * h
}

/// The number of values of a chroma plane.
pub open spec fn chroma_count(w: i32, h: i32, log_uv_x: i32, log_uv_y: i32) -> int {
    ((w as u32) >> (log_uv_x as u32)) * ((h as u32) >> (log_uv_y as u32))
}

/// The contents that the extended header at `ext` and the planes behind it describe.
pub open spec fn fields_at(b: Seq<u8>, ext: int) -> LogoView {
    let w = bytes::signed32(bytes::le32_at(b, ext + 8));
    let h = bytes::signed32(bytes::le32_at(b, ext + 12));
    let log_uv_x = bytes::signed32(bytes::le32_at(b, ext + 16));
    let log_uv_y = bytes::signed32(bytes::le32_at(b, ext + 20));
    let planes = ext + LOGO_HEADER_LEN;
    let y = luma_count(w, h);
    let uv = chroma_count(w, h, log_uv_x, log_uv_y);
    LogoView {
        w,
        h,
        log_uv_x,
        log_uv_y,
        imgw: bytes::signed32(bytes::le32_at(b, ext + 24)),
        imgh: bytes::signed32(bytes::le32_at(b, ext + 28)),
        imgx: bytes::signed32(bytes::le32_at(b, ext + 32)),
        imgy: bytes::signed32(bytes::le32_at(b, ext + 36)),
        name: name_text(until_nul(b.subrange(ext + 40, ext + 40 + NAME_LEN))),
        service_id: bytes::signed32(bytes::le32_at(b, ext + 296)),
        a_y: plane_at(b, planes, y),
        b_y: plane_at(b, planes + 4 * y, y),
        a_u: plane_at(b, planes + 8 * y, uv),
        b_u: plane_at(b, planes + 8 * y + 4 * uv, uv),
        a_v: plane_at(b, planes + 8 * y + 8 * uv, uv),
        b_v: plane_at(b, planes + 8 * y + 12 * uv, uv),
    }
}

/// What the bytes of a logo data file stand for, or the first reason to reject them.
pub open spec fn parsed(b: Seq<u8>) -> Result<LogoView, LgdParseError> {
    let actual = b.len() as usize;
    let base_h = bytes::signed16(bytes::le16_at(b, 68));
    let base_w = bytes::signed16(bytes::le16_at(b, 70));
    let pixels = base_w * base_h * BASE_LOGO_PIXEL_SIZE;
    let ext = BASE_FIXED_LEN + pixels;
    let logo = fields_at(b, ext);
    let y = luma_count(logo.w, logo.h);
    let uv = chroma_count(logo.w, logo.h, logo.log_uv_x, logo.log_uv_y);
    let end = ext + LOGO_HEADER_LEN + 4 * (2 * y + 4 * uv);
    if b.len() < BASE_FIXED_LEN {
        Err(LgdParseError::TooShortForBaseHeader { actual })
    } else if pixels < 0 {
        Err(LgdParseError::TooShortForBasePixels { needed: BASE_FIXED_LEN as u64, actual })
    } else if b.len() < ext {
        Err(LgdParseError::TooShortForBasePixels { needed: ext as u64, actual })
    } else if b.len() < ext + LOGO_HEADER_LEN {
        Err(
            LgdParseError::TooShortForExtendedHeader {
                needed: (ext + LOGO_HEADER_LEN) as u64,
                actual,
            },
        )
    } else if bytes::le32_at(b, ext) != MAGIC {
        Err(LgdParseError::MagicMismatch { found: bytes::le32_at(b, ext) })
    } else if logo.w <= 0 || logo.h <= 0 {
        Err(LgdParseError::NonPositiveSize { w: logo.w, h: logo.h })
    } else if base_w != logo.w || base_h != logo.h {
        Err(
            LgdParseError::BaseExtendedSizeMismatch {
                base_w,
                base_h,
                ext_w: logo.w,
                ext_h: logo.h,
            },
        )
    } else if !(0 <= logo.log_uv_x < 32 && 0 <= logo.log_uv_y < 32) {
        Err(
            LgdParseError::InvalidChromaShift {
                log_uv_x: logo.log_uv_x,
                log_uv_y: logo.log_uv_y,
            },
        )
    } else if b.len() < end {
        Err(LgdParseError::TooShortForFloatPlanes { needed: end as u64, actual })
    } else {
        Ok(logo)
    }
}

/// The contents of a successful result.
pub open spec fn logo_view(r: Result<LogoData, LgdParseError>) -> Result<LogoView, LgdParseError> {
    match r {
        Ok(logo) => Ok(logo@),
        Err(e) => Err(e),
    }
}

/// The signed number whose four bytes start at `offset`.
pub fn read_i32_le(b: &[u8], offset: usize) -> (n: i32)
    requires
        offset + 4 <= b@.len(),
    ensures
        n == bytes::signed32(bytes::le32_at(b@, offset as int)),
{
    bytes::to_signed32(bytes::read_le32(b, offset))
}

/// The signed number whose two bytes start at `offset`.
pub fn read_i16_le(b: &[u8], offset: usize) -> (n: i16)
    requires
        offset + 2 <= b@.len(),
    ensures
        n == bytes::signed16(bytes::le16_at(b@, offset as int)),
{
    bytes::to_signed16(bytes::read_le16(b, offset))
}

fn read_plane(b: &[u8], offset: usize, count: usize) -> (plane: Vec<u32>)
    requires
        offset + 4 * count <= b@.len(),
    ensures
        plane@ == plane_at(b@, offset as int, count as int),
{
    let available: usize = b.len();
    let mut plane: Vec<u32> = Vec::new();
    let mut i: usize = 0;
    while i < count
        invariant
            offset + 4 * count <= b@.len() == available,
            i <= count,
            plane@.len() == i,
            forall|k: int| 0 <= k < i ==> #[trigger] plane@[k] == bytes::le32_at(b@, offset + 4 * k),
        decreases count - i,
    {
        plane.push(bytes::read_le32(b, offset + 4 * i));
        i += 1;
    }
    assert(plane@ =~= plane_at(b@, offset as int, count as int));
    plane
}

fn read_name(b: &[u8], offset: usize) -> (name: String)
    requires
        offset + NAME_LEN <= b@.len(),
    ensures
        name@ == name_text(until_nul(b@.subrange(offset as int, offset + NAME_LEN))),
{
    let ghost field = b@.subrange(offset as int, offset + NAME_LEN);
    let available: usize = b.len();
    let mut name_bytes: Vec<u8> = Vec::new();
    let mut i: usize = 0;
    while i < NAME_LEN && b[offset + i] != 0
        invariant
            offset + NAME_LEN <= b@.len() == available,
            field == b@.subrange(offset as int, offset + NAME_LEN),
            i <= NAME_LEN,
            name_bytes@ == field.take(i as int),
            nul_from(field, 0) == nul_from(field, i as int),
        decreases NAME_LEN - i,
    {
        assert(field[i as int] == b@[offset + i]);
        name_bytes.push(b[offset + i]);
        i += 1;
        assert(name_bytes@ =~= field.take(i as int));
    }
    proof {
        if i < NAME_LEN {
            assert(field[i as int] == b@[offset + i]);
        }
        assert(nul_from(field, 0) == i);
    }
    let name: String = decode_lossy(name_bytes.as_slice());
    proof {
        vstd::utf8::encode_utf8_decode_utf8(name@);
    }
    name
}

/// Reads a logo data file.
pub fn parse(b: &[u8]) -> (r: Result<LogoData, LgdParseError>)
    ensures
        logo_view(r) == parsed(b@),
{
    let actual: usize = b.len();
    if actual < BASE_FIXED_LEN {
        return Err(LgdParseError::TooShortForBaseHeader { actual });
    }
    let base_h: i16 = read_i16_le(b, 68);
    let base_w: i16 = read_i16_le(b, 70);
    proof {
        assert(-0x4000_0000 <= base_w * base_h <= 0x4000_0000) by (nonlinear_arith)
            requires
                -0x8000 <= base_w <= 0x7fff,
                -0x8000 <= base_h <= 0x7fff,
        ;
    }
    let pixels: i64 = base_w as i64 * base_h as i64 * 12;
    if pixels < 0 {
        return Err(LgdParseError::TooShortForBasePixels { needed: 80, actual });
    }
    let wide_ext: u64 = 80 + pixels as u64;
    if (actual as u64) < wide_ext {
        return Err(LgdParseError::TooShortForBasePixels { needed: wide_ext, actual });
    }
    if (actual as u64) < wide_ext + 540 {
        return Err(LgdParseError::TooShortForExtendedHeader { needed: wide_ext + 540, actual });
    }
    let ext: usize = wide_ext as usize;
    let ghost logo = fields_at(b@, ext as int);
    let magic: u32 = bytes::read_le32(b, ext);
    if magic != MAGIC {
        return Err(LgdParseError::MagicMismatch { found: magic });
    }
    let w: i32 = read_i32_le(b, ext + 8);
    let h: i32 = read_i32_le(b, ext + 12);
    let log_uv_x: i32 = read_i32_le(b, ext + 16);
    let log_uv_y: i32 = read_i32_le(b, ext + 20);
    let imgw: i32 = read_i32_le(b, ext + 24);
    let imgh: i32 = read_i32_le(b, ext + 28);
    let imgx: i32 = read_i32_le(b, ext + 32);
    let imgy: i32 = read_i32_le(b, ext + 36);
    let name: String = read_name(b, ext + 40);
    let service_id: i32 = read_i32_le(b, ext + 296);
    if w <= 0 || h <= 0 {
        return Err(LgdParseError::NonPositiveSize { w, h });
    }
    if base_w as i32 != w || base_h as i32 != h {
        return Err(LgdParseError::BaseExtendedSizeMismatch { base_w, base_h, ext_w: w, ext_h: h });
    }
    if log_uv_x < 0 || log_uv_x >= 32 || log_uv_y < 0 || log_uv_y >= 32 {
        return Err(LgdParseError::InvalidChromaShift { log_uv_x, log_uv_y });
    }
    let wuv: u32 = (w as u32) >> (log_uv_x as u32);
    let huv: u32 = (h as u32) >> (log_uv_y as u32);
    proof {
        let wu = w as u32;
        let hu = h as u32;
        let sx = log_uv_x as u32;
        let sy = log_uv_y as u32;
        assert(wu >> sx <= wu) by (bit_vector);
        assert(hu >> sy <= hu) by (bit_vector);
        assert(0 <= wuv * huv <= 0x4000_0000) by (nonlinear_arith)
            requires
                0 <= wuv <= 0x7fff,
                0 <= huv <= 0x7fff,
        ;
        assert(0 <= w * h <= 0x4000_0000) by (nonlinear_arith)
            requires
                0 <= w <= 0x7fff,
                0 <= h <= 0x7fff,
        ;
        assert(wuv * huv == chroma_count(w, h, log_uv_x, log_uv_y));
    }
    let y: u64 = w as u64 * h as u64;
    let uv: u64 = wuv as u64 * huv as u64;
    let end: u64 = wide_ext + 540 + 4 * (2 * y + 4 * uv);
    if (actual as u64) < end {
        return Err(LgdParseError::TooShortForFloatPlanes { needed: end, actual });
    }
    let planes: usize = ext + 540;
    let y: usize = y as usize;
    let uv: usize = uv as usize;
    let r = LogoData {
        w,
        h,
        log_uv_x,
        log_uv_y,
        imgw,
        imgh,
        imgx,
        imgy,
        name,
        service_id,
        a_y: read_plane(b, planes, y),
        b_y: read_plane(b, planes + 4 * y, y),
        a_u: read_plane(b, planes + 8 * y, uv),
        b_u: read_plane(b, planes + 8 * y + 4 * uv, uv),
        a_v: read_plane(b, planes + 8 * y + 8 * uv, uv),
        b_v: read_plane(b, planes + 8 * y + 12 * uv, uv),
    };
    assert(r@ == logo);
    Ok(r)
}

impl LgdParseError {
    /// The message for the user.
    pub open spec fn spec_message(self) -> Seq<char> {
        match self {
            LgdParseError::TooShortForBaseHeader { actual } => {
                ".lgd のベース部固定長ヘッダ（80 バイト）に届きません（実際 "@ + text::decimal(
                    actual as nat,
                ) + " バイト）"@
            },
            LgdParseError::TooShortForBasePixels { needed, actual } => {
                ".lgd のベース部ピクセルデータの末尾（"@ + text::decimal(needed as nat)
                    + " バイト目）に届きません（実際 "@ + text::decimal(actual as nat)
                    + " バイト）"@
            },
            LgdParseError::TooShortForExtendedHeader { needed, actual } => {
                ".lgd の Amatsukaze 独自部 LogoHeader（"@ + text::decimal(needed as nat)
                    + " バイト目まで、540 バイト分）に届きません（実際 "@ + text::decimal(
                    actual as nat,
                ) + " バイト）"@
            },
            LgdParseError::MagicMismatch { found } => {
                ".lgd の LogoHeader.magic が 0x12345 と一致しません（実際 0x"@
                    + text::hexadecimal(found as nat) + "）"@
            },
            LgdParseError::BaseExtendedSizeMismatch { base_w, base_h, ext_w, ext_h } => {
                ".lgd のベース部 LOGO_HEADER の w/h（"@ + text::signed_decimal(base_w as int)
                    + "x"@ + text::signed_decimal(base_h as int)
                    + "）と Amatsukaze 独自部 LogoHeader の w/h（"@ + text::signed_decimal(
                    ext_w as int,
                ) + "x"@ + text::signed_decimal(ext_h as int) + "）が食い違います"@
            },
            LgdParseError::NonPositiveSize { w, h } => {
                ".lgd の LogoHeader.w/h が 0 以下です（w="@ + text::signed_decimal(w as int)
                    + ", h="@ + text::signed_decimal(h as int) + "）"@
            },
            LgdParseError::InvalidChromaShift { log_uv_x, log_uv_y } => {
                ".lgd の LogoHeader.logUVx/logUVy が不正です（log_uv_x="@ + text::signed_decimal(
                    log_uv_x as int,
                ) + ", log_uv_y="@ + text::signed_decimal(log_uv_y as int)
                    + ", 0..32 の範囲が必要）"@
            },
            LgdParseError::TooShortForFloatPlanes { needed, actual } => {
                ".lgd の float 部（aY/bY/aU/bU/aV/bV）の末尾（"@ + text::decimal(needed as nat)
                    + " バイト目）に届きません（実際 "@ + text::decimal(actual as nat)
                    + " バイト）"@
            },
        }
    }

    /// The message for the user.
    pub fn message(&self) -> (m: String)
        ensures
            m@ == self.spec_message(),
    {
        let mut m = String::new();
        match self {
            LgdParseError::TooShortForBaseHeader { actual } => {
                m.append(".lgd のベース部固定長ヘッダ（80 バイト）に届きません（実際 ");
                text::push_u64(&mut m, *actual as u64);
                m.append(" バイト）");
            },
            LgdParseError::TooShortForBasePixels { needed, actual } => {
                m.append(".lgd のベース部ピクセルデータの末尾（");
                text::push_u64(&mut m, *needed);
                m.append(" バイト目）に届きません（実際 ");
                text::push_u64(&mut m, *actual as u64);
                m.append(" バイト）");
            },
            LgdParseError::TooShortForExtendedHeader { needed, actual } => {
                m.append(".lgd の Amatsukaze 独自部 LogoHeader（");
                text::push_u64(&mut m, *needed);
                m.append(" バイト目まで、540 バイト分）に届きません（実際 ");
                text::push_u64(&mut m, *actual as u64);
                m.append(" バイト）");
            },
            LgdParseError::MagicMismatch { found } => {
                m.append(".lgd の LogoHeader.magic が 0x12345 と一致しません（実際 0x");
                text::push_hex(&mut m, *found as u64);
                m.append("）");
            },
            LgdParseError::BaseExtendedSizeMismatch { base_w, base_h, ext_w, ext_h } => {
                m.append(".lgd のベース部 LOGO_HEADER の w/h（");
                text::push_i64(&mut m, *base_w as i64);
                m.append("x");
                text::push_i64(&mut m, *base_h as i64);
                m.append("）と Amatsukaze 独自部 LogoHeader の w/h（");
                text::push_i64(&mut m, *ext_w as i64);
                m.append("x");
                text::push_i64(&mut m, *ext_h as i64);
                m.append("）が食い違います");
            },
            LgdParseError::NonPositiveSize { w, h } => {
                m.append(".lgd の LogoHeader.w/h が 0 以下です（w=");
                text::push_i64(&mut m, *w as i64);
                m.append(", h=");
                text::push_i64(&mut m, *h as i64);
                m.append("）");
            },
            LgdParseError::InvalidChromaShift { log_uv_x, log_uv_y } => {
                m.append(".lgd の LogoHeader.logUVx/logUVy が不正です（log_uv_x=");
                text::push_i64(&mut m, *log_uv_x as i64);
                m.append(", log_uv_y=");
                text::push_i64(&mut m, *log_uv_y as i64);
                m.append(", 0..32 の範囲が必要）");
            },
            LgdParseError::TooShortForFloatPlanes { needed, actual } => {
                m.append(".lgd の float 部（aY/bY/aU/bU/aV/bV）の末尾（");
                text::push_u64(&mut m, *needed);
                m.append(" バイト目）に届きません（実際 ");
                text::push_u64(&mut m, *actual as u64);
                m.append(" バイト）");
            },
        }
        assert(m@ =~= self.spec_message());
        m
    }
}

} // verus!
