//! Writing logo data files. For their form see [`crate::logo::lgd`].
//!
//! The pixels of the base part are zero, and so are the fields of its header but for the size:
//! nothing reads them.

use crate::bytes;
use crate::logo::lgd;
use crate::logo::lgd::LogoData;
use vstd::prelude::*;

verus! {

/// Why a logo cannot be written: the base part has 16 bits for its size.
#[derive(Debug, Clone, Copy, PartialEq, Eq, Structural)]
pub enum LgdWriteError {
    WidthOutOfRange,
    HeightOutOfRange,
}

impl LgdWriteError {
    /// The message for the user.
    pub fn message(&self) -> (m: String)
        ensures
            m@ == (match *self {
                LgdWriteError::WidthOutOfRange => "ロゴ矩形の w が i16 の範囲を超えています"@,
                LgdWriteError::HeightOutOfRange => "ロゴ矩形の h が i16 の範囲を超えています"@,
            }),
    {
        match self {
            LgdWriteError::WidthOutOfRange => "ロゴ矩形の w が i16 の範囲を超えています".to_owned(),
            LgdWriteError::HeightOutOfRange => "ロゴ矩形の h が i16 の範囲を超えています".to_owned(),
        }
    }
}

/// The largest boundary between characters of `b` that is at most `end`.
pub open spec fn boundary_up_to(b: Seq<u8>, end: int) -> int
    decreases end,
{
    if end <= 0 || vstd::utf8::is_char_boundary(b, end) {
        end
    } else {
        boundary_up_to(b, end - 1)
    }
}

/// The bytes of a name, cut off before the first character that does not fit in the name field
/// any more.
pub open spec fn name_bytes(name: Seq<char>) -> Seq<u8> {
    let b = vstd::utf8::encode_utf8(name);
    if b.len() <= lgd::NAME_LEN {
        b
    } else {
        b.take(boundary_up_to(b, lgd::NAME_LEN as int))
    }
}

/// The start of a name that fits in the name field.
pub open spec fn fitting_name(name: Seq<char>) -> Seq<char> {
    vstd::utf8::decode_utf8(name_bytes(name))
}

proof fn lemma_boundary_up_to(b: Seq<u8>, end: int)
    requires
        vstd::utf8::valid_utf8(b),
        0 <= end <= b.len(),
    ensures
        0 <= boundary_up_to(b, end) <= end,
        vstd::utf8::is_char_boundary(b, boundary_up_to(b, end)),
    decreases end,
{
    vstd::utf8::is_char_boundary_start_end_of_seq(b);
    if end > 0 && !vstd::utf8::is_char_boundary(b, end) {
        lemma_boundary_up_to(b, end - 1);
    }
}

/// The written name fits, is UTF-8, and is the start of the name; a name that fits is written
/// as it is.
pub proof fn fitting_name_is_a_prefix(name: Seq<char>)
    ensures
        name_bytes(name).len() <= lgd::NAME_LEN,
        vstd::utf8::valid_utf8(name_bytes(name)),
        fitting_name(name).is_prefix_of(name),
        vstd::utf8::encode_utf8(name).len() <= lgd::NAME_LEN ==> fitting_name(name) == name,
{
    let b = vstd::utf8::encode_utf8(name);
    vstd::utf8::encode_utf8_valid_utf8(name);
    vstd::utf8::encode_utf8_decode_utf8(name);
    if b.len() > lgd::NAME_LEN {
        let end = boundary_up_to(b, lgd::NAME_LEN as int);
        lemma_boundary_up_to(b, lgd::NAME_LEN as int);
        vstd::utf8::valid_utf8_split(b, end);
        vstd::utf8::decode_utf8_split(b, end);
        assert(b.take(end) =~= b.subrange(0, end));
    }
}

/// The start of `name` that fits in the name field of a file.
pub fn truncate_name_for_lgd(name: &str) -> (r: &str)
    ensures
        r@ == fitting_name(name@),
        vstd::utf8::encode_utf8(r@) == name_bytes(name@),
{
    let ghost b = vstd::utf8::encode_utf8(name@);
    let all: &[u8] = name.as_bytes();
    let len: usize = all.len();
    proof {
        vstd::utf8::encode_utf8_valid_utf8(name@);
        vstd::utf8::encode_utf8_decode_utf8(name@);
    }
    if len <= lgd::NAME_LEN {
        return name;
    }
    let mut end: usize = lgd::NAME_LEN;
    while end > 0 && !name.is_char_boundary(end)
        invariant
            b == vstd::utf8::encode_utf8(name@),
            end <= lgd::NAME_LEN,
            boundary_up_to(b, lgd::NAME_LEN as int) == boundary_up_to(b, end as int),
        decreases end,
    {
        end -= 1;
    }
    proof {
        lemma_boundary_up_to(b, lgd::NAME_LEN as int);
    }
    let (start, _rest) = name.split_at(end);
    proof {
        assert(b.take(end as int) =~= b.subrange(0, end as int));
        vstd::utf8::encode_utf8_decode_utf8(start@);
    }
    start
}

/// `n` where it is not negative, else 0.
pub open spec fn at_least_zero(n: int) -> int {
    if n < 0 {
        0
    } else {
        n
    }
}

/// The fixed part of the base part, of a logo of `w` by `h` pixels.
pub open spec fn base_header(w: i16, h: i16) -> Seq<u8> {
    bytes::zeros(28) + bytes::be32(1) + bytes::zeros(36) + bytes::le16(bytes::unsigned16(h))
        + bytes::le16(bytes::unsigned16(w)) + bytes::zeros(8)
}

/// The base part, of a logo of `w` by `h` pixels.
pub open spec fn base_part(w: i16, h: i16) -> Seq<u8> {
    base_header(w, h) + bytes::zeros(
        at_least_zero(w as int) * at_least_zero(h as int) * lgd::BASE_LOGO_PIXEL_SIZE,
    )
}

/// A size fits in the base part.
pub open spec fn size_error(w: i32, h: i32) -> Option<LgdWriteError> {
    if !(i16::MIN <= w <= i16::MAX) {
        Some(LgdWriteError::WidthOutOfRange)
    } else if !(i16::MIN <= h <= i16::MAX) {
        Some(LgdWriteError::HeightOutOfRange)
    } else {
        None
    }
}

/// The base part, of a logo of `w` by `h` pixels.
pub fn build_base_part(w: i32, h: i32) -> (r: Result<Vec<u8>, LgdWriteError>)
    ensures
        match r {
            Ok(part) => size_error(w, h) is None && part@ == base_part(w as i16, h as i16),
            Err(e) => size_error(w, h) == Some(e),
        },
{
    if w < -0x8000 || w > 0x7fff {
        return Err(LgdWriteError::WidthOutOfRange);
    }
    if h < -0x8000 || h > 0x7fff {
        return Err(LgdWriteError::HeightOutOfRange);
    }
    let base_w: i16 = w as i16;
    let base_h: i16 = h as i16;
    let mut part: Vec<u8> = Vec::new();
    bytes::push_zeros(&mut part, 28);
    bytes::push_be32(&mut part, 1);
    bytes::push_zeros(&mut part, 36);
    bytes::push_le16(&mut part, bytes::to_unsigned16(base_h));
    bytes::push_le16(&mut part, bytes::to_unsigned16(base_w));
    bytes::push_zeros(&mut part, 8);
    assert(part@ =~= base_header(base_w, base_h));
    let columns: usize = if base_w > 0 {
        base_w as usize
    } else {
        0
    };
    let rows: usize = if base_h > 0 {
        base_h as usize
    } else {
        0
    };
    let ghost header = part@;
    let mut y: usize = 0;
    assert(part@ =~= header + bytes::zeros(0));
    assert(columns * 0 * 12 == 0) by (nonlinear_arith);
    while y < rows
        invariant
            columns <= 0x7fff,
            y <= rows,
            part@ == header + bytes::zeros(columns * y * 12),
        decreases rows - y,
    {
        let ghost done: int = columns * y * 12;
        assert(done >= 0 && columns * (y + 1) * 12 == done + columns * 12) by (nonlinear_arith)
            requires
                done == columns * y * 12,
                columns >= 0,
                y >= 0,
        ;
        bytes::push_zeros(&mut part, columns * 12);
        y += 1;
        assert(bytes::zeros(done) + bytes::zeros(columns * 12) =~= bytes::zeros(
            done + columns * 12,
        ));
        assert(part@ =~= header + bytes::zeros(columns * y * 12));
    }
    Ok(part)
}

/// The numbers at the start of the extended header.
pub open spec fn header_words(logo: lgd::LogoView) -> Seq<u32> {
    seq![
        lgd::MAGIC,
        1u32,
        bytes::unsigned32(logo.w),
        bytes::unsigned32(logo.h),
        bytes::unsigned32(logo.log_uv_x),
        bytes::unsigned32(logo.log_uv_y),
        bytes::unsigned32(logo.imgw),
        bytes::unsigned32(logo.imgh),
        bytes::unsigned32(logo.imgx),
        bytes::unsigned32(logo.imgy),
    ]
}

/// The name field.
pub open spec fn name_field(name: Seq<char>) -> Seq<u8> {
    name_bytes(name) + bytes::zeros(lgd::NAME_LEN - name_bytes(name).len())
}

/// The extended header: the numbers, the name with a byte of padding behind it, the service id
/// and 240 reserved bytes.
pub open spec fn extended_header(logo: lgd::LogoView) -> Seq<u8> {
    bytes::le32_all(header_words(logo)) + name_field(logo.name) + bytes::zeros(1) + bytes::le32(
        bytes::unsigned32(logo.service_id),
    ) + bytes::zeros(240)
}

/// The values of all planes.
pub open spec fn plane_values(logo: lgd::LogoView) -> Seq<u32> {
    logo.a_y + logo.b_y + logo.a_u + logo.b_u + logo.a_v + logo.b_v
}

/// The extended part.
pub open spec fn extended_part(logo: lgd::LogoView) -> Seq<u8> {
    extended_header(logo) + bytes::le32_all(plane_values(logo))
}

/// The bytes of a logo data file.
pub open spec fn lgd_bytes(logo: lgd::LogoView) -> Seq<u8> {
    base_part(logo.w as i16, logo.h as i16) + extended_part(logo)
}

/// The extended part of the file of a logo.
pub fn build_extended_part(logo: &LogoData) -> (part: Vec<u8>)
    ensures
        part@ == extended_part(logo@),
{
    let mut words: Vec<u32> = Vec::new();
    words.push(lgd::MAGIC);
    words.push(1);
    words.push(bytes::to_unsigned32(logo.w));
    words.push(bytes::to_unsigned32(logo.h));
    words.push(bytes::to_unsigned32(logo.log_uv_x));
    words.push(bytes::to_unsigned32(logo.log_uv_y));
    words.push(bytes::to_unsigned32(logo.imgw));
    words.push(bytes::to_unsigned32(logo.imgh));
    words.push(bytes::to_unsigned32(logo.imgx));
    words.push(bytes::to_unsigned32(logo.imgy));
    assert(words@ =~= header_words(logo@));
    let mut part: Vec<u8> = Vec::new();
    bytes::push_le32_all(&mut part, &words);

    let name: &str = truncate_name_for_lgd(logo.name.as_str());
    let name_start: &[u8] = name.as_bytes();
    proof {
        fitting_name_is_a_prefix(logo.name@);
    }
    part.extend_from_slice(name_start);
    bytes::push_zeros(&mut part, lgd::NAME_LEN - name_start.len());
    bytes::push_zeros(&mut part, 1);
    bytes::push_le32(&mut part, bytes::to_unsigned32(logo.service_id));
    bytes::push_zeros(&mut part, 240);
    assert(part@ =~= extended_header(logo@));

    let ghost header = part@;
    bytes::push_le32_all(&mut part, &logo.a_y);
    bytes::push_le32_all(&mut part, &logo.b_y);
    bytes::push_le32_all(&mut part, &logo.a_u);
    bytes::push_le32_all(&mut part, &logo.b_u);
    bytes::push_le32_all(&mut part, &logo.a_v);
    bytes::push_le32_all(&mut part, &logo.b_v);
    proof {
        let l = logo@;
        bytes::lemma_le32_all_concat(l.a_y, l.b_y);
        bytes::lemma_le32_all_concat(l.a_y + l.b_y, l.a_u);
        bytes::lemma_le32_all_concat(l.a_y + l.b_y + l.a_u, l.b_u);
        bytes::lemma_le32_all_concat(l.a_y + l.b_y + l.a_u + l.b_u, l.a_v);
        bytes::lemma_le32_all_concat(l.a_y + l.b_y + l.a_u + l.b_u + l.a_v, l.b_v);
        assert(part@ =~= extended_part(l));
    }
    part
}

/// The file of a logo. It cannot be written where the size of the logo does not fit in the
/// base part.
pub fn build_lgd_bytes(logo: &LogoData) -> (r: Result<Vec<u8>, LgdWriteError>)
    ensures
        match r {
            Ok(b) => size_error(logo.w, logo.h) is None && b@ == lgd_bytes(logo@),
            Err(e) => size_error(logo.w, logo.h) == Some(e),
        },
{
    let mut b: Vec<u8> = match build_base_part(logo.w, logo.h) {
        Ok(part) => part,
        Err(e) => return Err(e),
    };
    let extended: Vec<u8> = build_extended_part(logo);
    b.extend_from_slice(extended.as_slice());
    Ok(b)
}

/// The size of a logo fits in the base part, its planes have the length that the size gives,
/// and its name, as far as it is written, has no NUL.
pub open spec fn is_writable(logo: lgd::LogoView) -> bool {
    let y = lgd::luma_count(logo.w, logo.h);
    let uv = lgd::chroma_count(logo.w, logo.h, logo.log_uv_x, logo.log_uv_y);
    &&& 0 < logo.w <= i16::MAX
    &&& 0 < logo.h <= i16::MAX
    &&& 0 <= logo.log_uv_x < 32
    &&& 0 <= logo.log_uv_y < 32
    &&& logo.a_y.len() == y
    &&& logo.b_y.len() == y
    &&& logo.a_u.len() == uv
    &&& logo.b_u.len() == uv
    &&& logo.a_v.len() == uv
    &&& logo.b_v.len() == uv
    &&& !name_bytes(logo.name).contains(0u8)
}

proof fn lemma_nul_from(b: Seq<u8>, end: int, i: int)
    requires
        0 <= i <= end <= b.len(),
        forall|k: int| 0 <= k < end ==> #[trigger] b[k] != 0,
        end < b.len() ==> b[end] == 0,
    ensures
        lgd::nul_from(b, i) == end,
    decreases end - i,
{
    if i < end {
        lemma_nul_from(b, end, i + 1);
    }
}

/// A name without NUL reads back from the name field, as far as it was written.
proof fn lemma_name_reads_back(name: Seq<char>)
    requires
        !name_bytes(name).contains(0u8),
    ensures
        lgd::name_text(lgd::until_nul(name_field(name))) == fitting_name(name),
{
    let written = name_bytes(name);
    let field = name_field(name);
    let end = written.len() as int;
    fitting_name_is_a_prefix(name);
    assert forall|k: int| 0 <= k < end implies #[trigger] field[k] != 0 by {
        assert(written.contains(written[k]));
    }
    lemma_nul_from(field, end, 0);
    assert(field.take(end) =~= written);
}

proof fn lemma_header_words(b: Seq<u8>, ext: int, words: Seq<u32>)
    requires
        0 <= ext,
        words.len() == 10,
        ext + 40 <= b.len(),
        b.subrange(ext, ext + 40) == bytes::le32_all(words),
    ensures
        bytes::le32_at(b, ext) == words[0],
        bytes::le32_at(b, ext + 8) == words[2],
        bytes::le32_at(b, ext + 12) == words[3],
        bytes::le32_at(b, ext + 16) == words[4],
        bytes::le32_at(b, ext + 20) == words[5],
        bytes::le32_at(b, ext + 24) == words[6],
        bytes::le32_at(b, ext + 28) == words[7],
        bytes::le32_at(b, ext + 32) == words[8],
        bytes::le32_at(b, ext + 36) == words[9],
{
    bytes::le32_words_read_back(b, ext, words, 0);
    bytes::le32_words_read_back(b, ext, words, 2);
    bytes::le32_words_read_back(b, ext, words, 3);
    bytes::le32_words_read_back(b, ext, words, 4);
    bytes::le32_words_read_back(b, ext, words, 5);
    bytes::le32_words_read_back(b, ext, words, 6);
    bytes::le32_words_read_back(b, ext, words, 7);
    bytes::le32_words_read_back(b, ext, words, 8);
    bytes::le32_words_read_back(b, ext, words, 9);
}

/// A part of the words that lie at `at` reads back as a plane.
proof fn lemma_plane_reads_back(b: Seq<u8>, at: int, words: Seq<u32>, from: int, plane: Seq<u32>)
    requires
        0 <= at,
        at + 4 * words.len() <= b.len(),
        b.subrange(at, at + 4 * words.len()) == bytes::le32_all(words),
        0 <= from,
        from + plane.len() <= words.len(),
        plane == words.subrange(from, from + plane.len()),
    ensures
        lgd::plane_at(b, at + 4 * from, plane.len() as int) == plane,
{
    let read = lgd::plane_at(b, at + 4 * from, plane.len() as int);
    assert forall|i: int| 0 <= i < plane.len() implies #[trigger] read[i] == plane[i] by {
        bytes::le32_words_read_back(b, at, words, from + i);
        assert(at + 4 * from + 4 * i == at + 4 * (from + i));
    }
    assert(read =~= plane);
}

/// The size reads back from the base part.
proof fn lemma_base_reads_back(b: Seq<u8>, w: i16, h: i16)
    requires
        80 <= b.len(),
        b.subrange(0, 80) == base_header(w, h),
    ensures
        bytes::signed16(bytes::le16_at(b, 68)) == h,
        bytes::signed16(bytes::le16_at(b, 70)) == w,
{
    let header = base_header(w, h);
    assert(b.subrange(68, 70) =~= header.subrange(68, 70));
    assert(header.subrange(68, 70) =~= bytes::le16(bytes::unsigned16(h)));
    bytes::le16_reads_back(b, 68, bytes::unsigned16(h));
    assert(b.subrange(70, 72) =~= header.subrange(70, 72));
    assert(header.subrange(70, 72) =~= bytes::le16(bytes::unsigned16(w)));
    bytes::le16_reads_back(b, 70, bytes::unsigned16(w));
    bytes::signed_reads_back(0, w);
    bytes::signed_reads_back(0, h);
}

proof fn lemma_extended_header(logo: lgd::LogoView)
    ensures
        extended_header(logo).len() == 540,
        extended_header(logo).subrange(0, 40) == bytes::le32_all(header_words(logo)),
        extended_header(logo).subrange(40, 295) == name_field(logo.name),
        extended_header(logo).subrange(296, 300) == bytes::le32(
            bytes::unsigned32(logo.service_id),
        ),
{
    let header = extended_header(logo);
    let words = header_words(logo);
    bytes::lemma_le32_words_len(words, words.len() as int);
    fitting_name_is_a_prefix(logo.name);
    assert(name_field(logo.name).len() == 255);
    assert(header.subrange(0, 40) =~= bytes::le32_all(words));
    assert(header.subrange(40, 295) =~= name_field(logo.name));
    assert(header.subrange(296, 300) =~= bytes::le32(bytes::unsigned32(logo.service_id)));
}

/// The fields of the extended header read back.
proof fn lemma_header_reads_back(b: Seq<u8>, ext: int, logo: lgd::LogoView)
    requires
        0 <= ext,
        ext + 540 <= b.len(),
        b.subrange(ext, ext + 540) == extended_header(logo),
        !name_bytes(logo.name).contains(0u8),
    ensures
        bytes::le32_at(b, ext) == lgd::MAGIC,
        lgd::fields_at(b, ext).w == logo.w,
        lgd::fields_at(b, ext).h == logo.h,
        lgd::fields_at(b, ext).log_uv_x == logo.log_uv_x,
        lgd::fields_at(b, ext).log_uv_y == logo.log_uv_y,
        lgd::fields_at(b, ext).imgw == logo.imgw,
        lgd::fields_at(b, ext).imgh == logo.imgh,
        lgd::fields_at(b, ext).imgx == logo.imgx,
        lgd::fields_at(b, ext).imgy == logo.imgy,
        lgd::fields_at(b, ext).name == fitting_name(logo.name),
        lgd::fields_at(b, ext).service_id == logo.service_id,
{
    let header = extended_header(logo);
    lemma_extended_header(logo);
    assert(b.subrange(ext, ext + 40) =~= header.subrange(0, 40));
    lemma_header_words(b, ext, header_words(logo));
    assert(b.subrange(ext + 40, ext + 40 + 255) =~= header.subrange(40, 295));
    lemma_name_reads_back(logo.name);
    assert(b.subrange(ext + 296, ext + 300) =~= header.subrange(296, 300));
    bytes::le32_reads_back(b, ext + 296, bytes::unsigned32(logo.service_id));
}

/// The planes read back.
proof fn lemma_planes_read_back(b: Seq<u8>, at: int, logo: lgd::LogoView, y: int, uv: int)
    requires
        0 <= at,
        0 <= y,
        0 <= uv,
        logo.a_y.len() == y,
        logo.b_y.len() == y,
        logo.a_u.len() == uv,
        logo.b_u.len() == uv,
        logo.a_v.len() == uv,
        logo.b_v.len() == uv,
        at + 4 * (2 * y + 4 * uv) <= b.len(),
        b.subrange(at, at + 4 * (2 * y + 4 * uv)) == bytes::le32_all(plane_values(logo)),
    ensures
        lgd::plane_at(b, at, y) == logo.a_y,
        lgd::plane_at(b, at + 4 * y, y) == logo.b_y,
        lgd::plane_at(b, at + 8 * y, uv) == logo.a_u,
        lgd::plane_at(b, at + 8 * y + 4 * uv, uv) == logo.b_u,
        lgd::plane_at(b, at + 8 * y + 8 * uv, uv) == logo.a_v,
        lgd::plane_at(b, at + 8 * y + 12 * uv, uv) == logo.b_v,
{
    let values = plane_values(logo);
    assert(values.len() == 2 * y + 4 * uv);
    assert(logo.a_y =~= values.subrange(0, y));
    lemma_plane_reads_back(b, at, values, 0, logo.a_y);
    assert(logo.b_y =~= values.subrange(y, y + y));
    lemma_plane_reads_back(b, at, values, y, logo.b_y);
    assert(logo.a_u =~= values.subrange(2 * y, 2 * y + uv));
    lemma_plane_reads_back(b, at, values, 2 * y, logo.a_u);
    assert(logo.b_u =~= values.subrange(2 * y + uv, 2 * y + uv + uv));
    lemma_plane_reads_back(b, at, values, 2 * y + uv, logo.b_u);
    assert(logo.a_v =~= values.subrange(2 * y + 2 * uv, 2 * y + 2 * uv + uv));
    lemma_plane_reads_back(b, at, values, 2 * y + 2 * uv, logo.a_v);
    assert(logo.b_v =~= values.subrange(2 * y + 3 * uv, 2 * y + 3 * uv + uv));
    lemma_plane_reads_back(b, at, values, 2 * y + 3 * uv, logo.b_v);
}

/// A logo that is written reads back: only a name that is too long comes back shorter.
pub proof fn written_logo_reads_back(logo: lgd::LogoView)
    requires
        is_writable(logo),
    ensures
        size_error(logo.w, logo.h) is None,
        lgd::parsed(lgd_bytes(logo)) == Ok::<lgd::LogoView, lgd::LgdParseError>(
            (lgd::LogoView { name: fitting_name(logo.name), ..logo }),
        ),
{
    let b = lgd_bytes(logo);
    let w = logo.w as i16;
    let h = logo.h as i16;
    let pixels = w * h * lgd::BASE_LOGO_PIXEL_SIZE;
    assert(pixels >= 0) by (nonlinear_arith)
        requires
            pixels == w * h * 12,
            w > 0,
            h > 0,
    ;
    let ext = 80 + pixels;
    let y = lgd::luma_count(logo.w, logo.h);
    let uv = lgd::chroma_count(logo.w, logo.h, logo.log_uv_x, logo.log_uv_y);
    let values = plane_values(logo);
    assert(b.len() == ext + 540 + 4 * (2 * y + 4 * uv) && b.subrange(0, 80) == base_header(w, h)
        && b.subrange(ext, ext + 540) == extended_header(logo) && b.subrange(
        ext + 540,
        ext + 540 + 4 * (2 * y + 4 * uv),
    ) == bytes::le32_all(values)) by {
        lemma_extended_header(logo);
        bytes::lemma_le32_words_len(values, values.len() as int);
        assert(base_header(w, h).len() == 80);
        assert(base_part(w, h).len() == ext);
        assert(b.subrange(0, 80) =~= base_header(w, h));
        assert(b.subrange(ext, ext + 540) =~= extended_header(logo));
        assert(b.subrange(ext + 540, ext + 540 + 4 * (2 * y + 4 * uv)) =~= bytes::le32_all(values));
    }
    lemma_base_reads_back(b, w, h);
    lemma_header_reads_back(b, ext, logo);
    lemma_planes_read_back(b, ext + 540, logo, y, uv);
    let read = lgd::fields_at(b, ext);
    assert(read == (lgd::LogoView { name: fitting_name(logo.name), ..logo }));
}

} // verus!
