//! Which files are logo files, and what is where in them.

use crate::bytes;
use crate::logo::lgd;
use crate::logo::lgd::{LgdParseError, LogoView};
use crate::logo::lgd_write;
use vstd::prelude::*;

verus! {

/// The number that two bytes at `at` stand for, the lower one first.
pub open spec fn short_at(b: Seq<u8>, at: int) -> int {
    let n = b[at] + b[at + 1] * 256;
    if n < 32768 {
        n
    } else {
        n - 65536
    }
}

/// The number that four bytes at `at` stand for, the lowest one first.
pub open spec fn long_at(b: Seq<u8>, at: int) -> int {
    let n = b[at] + b[at + 1] * 256 + b[at + 2] * 65536 + b[at + 3] * 16777216;
    if n < 2147483648 {
        n
    } else {
        n - 4294967296
    }
}

/// Where the extended header is: behind a fixed part of 80 bytes and 12 bytes for each pixel.
pub open spec fn extended_at(b: Seq<u8>) -> int {
    80 + 12 * (short_at(b, 70) * short_at(b, 68))
}

/// How many values a chroma plane has.
pub open spec fn chroma_values(b: Seq<u8>, ext: int) -> int {
    (((long_at(b, ext + 8) as u32) >> (long_at(b, ext + 16) as u32)) as int) * (((long_at(
        b,
        ext + 12,
    ) as u32) >> (long_at(b, ext + 20) as u32)) as int)
}

proof fn lemma_long(b: Seq<u8>, at: int)
    ensures
        bytes::signed32(bytes::le32_at(b, at)) == long_at(b, at),
{
}

proof fn lemma_short(b: Seq<u8>, at: int)
    ensures
        bytes::signed16(bytes::le16_at(b, at)) == short_at(b, at),
{
}

/// A file is a logo file where, and only where, it is long enough for both headers, has the magic
/// number, gives a size that both headers agree on, has a chroma format, and is long enough for the
/// values of all planes.
pub proof fn logo_files_are_accepted(b: Seq<u8>)
    requires
        b.len() <= usize::MAX,
    ensures
        lgd::parsed(b) is Ok <==> {
            let ext = extended_at(b);
            let (w, h) = (long_at(b, ext + 8), long_at(b, ext + 12));
            &&& b.len() >= 80
            &&& ext >= 80
            &&& b.len() >= ext + 540
            &&& long_at(b, ext) == 0x12345
            &&& w > 0 && h > 0
            &&& w == short_at(b, 70) && h == short_at(b, 68)
            &&& 0 <= long_at(b, ext + 16) < 32 && 0 <= long_at(b, ext + 20) < 32
            &&& b.len() >= ext + 540 + 8 * (w * h) + 16 * chroma_values(b, ext)
        },
{
    lemma_short(b, 68);
    lemma_short(b, 70);
    let (p, q) = (short_at(b, 70), short_at(b, 68));
    assert(p * q * 12 == 12 * (p * q)) by (nonlinear_arith);
    let ext = extended_at(b);
    lemma_long(b, ext);
    lemma_long(b, ext + 8);
    lemma_long(b, ext + 12);
    lemma_long(b, ext + 16);
    lemma_long(b, ext + 20);
}

/// A file that is not accepted is refused for what is wrong first: the headers come before the magic
/// number, this before the size, the size before the chroma format, and this before the planes.
pub proof fn other_files_are_refused_for_the_first_fault(b: Seq<u8>)
    requires
        b.len() <= usize::MAX,
    ensures
        ({
            let ext = extended_at(b);
            let (w, h) = (long_at(b, ext + 8), long_at(b, ext + 12));
            let (x, y) = (long_at(b, ext + 16), long_at(b, ext + 20));
            let end = ext + 540 + 8 * (w * h) + 16 * chroma_values(b, ext);
            let r = lgd::parsed(b);
            let has_headers = b.len() >= 80 && ext >= 80 && b.len() >= ext + 540;
            let has_magic = has_headers && long_at(b, ext) == 0x12345;
            let has_pixels = has_magic && w > 0 && h > 0;
            let has_size = has_pixels && w == short_at(b, 70) && h == short_at(b, 68);
            let has_chroma = has_size && 0 <= x < 32 && 0 <= y < 32;
            &&& b.len() < 80 ==> r == Err::<LogoView, LgdParseError>(
                LgdParseError::TooShortForBaseHeader { actual: b.len() as usize },
            )
            &&& b.len() >= 80 && ext < 80 ==> r == Err::<LogoView, LgdParseError>(
                LgdParseError::TooShortForBasePixels { needed: 80, actual: b.len() as usize },
            )
            &&& b.len() >= 80 && ext >= 80 && b.len() < ext ==> r == Err::<LogoView, LgdParseError>(
                LgdParseError::TooShortForBasePixels {
                    needed: ext as u64,
                    actual: b.len() as usize,
                },
            )
            &&& b.len() >= 80 && ext >= 80 && ext <= b.len() < ext + 540 ==> r == Err::<
                LogoView,
                LgdParseError,
            >(
                LgdParseError::TooShortForExtendedHeader {
                    needed: (ext + 540) as u64,
                    actual: b.len() as usize,
                },
            )
            &&& has_headers && !has_magic ==> (r matches Err(LgdParseError::MagicMismatch { found })
                && found == bytes::le32_at(b, ext))
            &&& has_magic && !has_pixels ==> (r matches Err(
                LgdParseError::NonPositiveSize { w: ew, h: eh },
            ) && ew == w && eh == h)
            &&& has_pixels && !has_size ==> (r matches Err(
                LgdParseError::BaseExtendedSizeMismatch { base_w, base_h, ext_w, ext_h },
            ) && base_w == short_at(b, 70) && base_h == short_at(b, 68) && ext_w == w && ext_h == h)
            &&& has_size && !has_chroma ==> (r matches Err(
                LgdParseError::InvalidChromaShift { log_uv_x, log_uv_y },
            ) && log_uv_x == x && log_uv_y == y)
            &&& has_chroma && b.len() < end ==> (r matches Err(
                LgdParseError::TooShortForFloatPlanes { needed, actual },
            ) && needed == end as u64 && actual == b.len())
        }),
{
    lemma_short(b, 68);
    lemma_short(b, 70);
    let (p, q) = (short_at(b, 70), short_at(b, 68));
    assert(p * q * 12 == 12 * (p * q)) by (nonlinear_arith);
    let ext = extended_at(b);
    lemma_long(b, ext);
    lemma_long(b, ext + 8);
    lemma_long(b, ext + 12);
    lemma_long(b, ext + 16);
    lemma_long(b, ext + 20);
}

/// The fields of a logo are at their places behind the start of the extended header: its size, the
/// chroma format, the size of the picture and the place in it from byte 8 on, the service behind
/// the name, and the planes behind 540 bytes, luma first.
pub proof fn fields_are_at_their_places(b: Seq<u8>, logo: LogoView, i: int)
    requires
        lgd::parsed(b) == Ok::<LogoView, LgdParseError>(logo),
    ensures
        ({
            let ext = extended_at(b);
            let y = logo.w * logo.h;
            let uv = chroma_values(b, ext);
            &&& logo.w == long_at(b, ext + 8)
            &&& logo.h == long_at(b, ext + 12)
            &&& logo.log_uv_x == long_at(b, ext + 16)
            &&& logo.log_uv_y == long_at(b, ext + 20)
            &&& logo.imgw == long_at(b, ext + 24)
            &&& logo.imgh == long_at(b, ext + 28)
            &&& logo.imgx == long_at(b, ext + 32)
            &&& logo.imgy == long_at(b, ext + 36)
            &&& logo.service_id == long_at(b, ext + 296)
            &&& logo.a_y.len() == y && logo.b_y.len() == y
            &&& logo.a_u.len() == uv && logo.b_u.len() == uv
            &&& logo.a_v.len() == uv && logo.b_v.len() == uv
            &&& 0 <= i < y ==> {
                &&& logo.a_y[i] == bytes::le32_at(b, ext + 540 + 4 * i)
                &&& logo.b_y[i] == bytes::le32_at(b, ext + 540 + 4 * (y + i))
            }
            &&& 0 <= i < uv ==> {
                &&& logo.a_u[i] == bytes::le32_at(b, ext + 540 + 4 * (2 * y + i))
                &&& logo.b_u[i] == bytes::le32_at(b, ext + 540 + 4 * (2 * y + uv + i))
                &&& logo.a_v[i] == bytes::le32_at(b, ext + 540 + 4 * (2 * y + 2 * uv + i))
                &&& logo.b_v[i] == bytes::le32_at(b, ext + 540 + 4 * (2 * y + 3 * uv + i))
            }
        }),
{
    lemma_short(b, 68);
    lemma_short(b, 70);
    let (p, q) = (short_at(b, 70), short_at(b, 68));
    assert(p * q * 12 == 12 * (p * q)) by (nonlinear_arith);
    let ext = extended_at(b);
    lemma_long(b, ext + 8);
    lemma_long(b, ext + 12);
    lemma_long(b, ext + 16);
    lemma_long(b, ext + 20);
    lemma_long(b, ext + 24);
    lemma_long(b, ext + 28);
    lemma_long(b, ext + 32);
    lemma_long(b, ext + 36);
    lemma_long(b, ext + 296);
    let (w, h) = (logo.w, logo.h);
    assert(w * h >= 0) by (nonlinear_arith)
        requires
            w > 0,
            h > 0,
    ;
    let (s, t) = (
        (w as u32) >> (logo.log_uv_x as u32),
        (h as u32) >> (logo.log_uv_y as u32),
    );
    assert(s * t >= 0) by (nonlinear_arith)
        requires
            s >= 0,
            t >= 0,
    ;
}

/// The name is read up to the first zero, of at most 255 bytes.
pub proof fn names_end_at_the_first_zero(s: Seq<u8>, k: int)
    requires
        0 <= k <= s.len(),
        forall|i: int| 0 <= i < k ==> #[trigger] s[i] != 0,
        k < s.len() ==> s[k] == 0,
    ensures
        lgd::until_nul(s) == s.take(k),
{
    lemma_nul(s, 0, k);
}

proof fn lemma_nul(s: Seq<u8>, i: int, k: int)
    requires
        0 <= i <= k <= s.len(),
        forall|j: int| i <= j < k ==> #[trigger] s[j] != 0,
        k < s.len() ==> s[k] == 0,
    ensures
        lgd::nul_from(s, i) == k,
    decreases k - i,
{
    if i < k {
        lemma_nul(s, i + 1, k);
    }
}

/// As much of a name is written as fits in 255 bytes: all of it, or up to the last character that
/// ends there or before.
pub proof fn names_are_cut_as_late_as_possible(name: Seq<char>, p: int)
    requires
        0 <= p <= 255,
        p <= vstd::utf8::encode_utf8(name).len(),
        vstd::utf8::is_char_boundary(vstd::utf8::encode_utf8(name), p),
    ensures
        p <= lgd_write::name_bytes(name).len() <= 255,
        lgd_write::name_bytes(name) == vstd::utf8::encode_utf8(name).take(
            lgd_write::name_bytes(name).len() as int,
        ),
{
    let b = vstd::utf8::encode_utf8(name);
    lgd_write::fitting_name_is_a_prefix(name);
    if b.len() > 255 {
        lemma_boundary(b, 255, p);
    } else {
        assert(b.take(b.len() as int) =~= b);
    }
}

proof fn lemma_boundary(b: Seq<u8>, end: int, p: int)
    requires
        0 <= p <= end <= b.len(),
        vstd::utf8::is_char_boundary(b, p),
    ensures
        p <= lgd_write::boundary_up_to(b, end) <= end,
    decreases end,
{
    if end > p && !vstd::utf8::is_char_boundary(b, end) {
        lemma_boundary(b, end - 1, p);
    }
}

/// A logo is written where its width and height are numbers of 16 bits.
pub proof fn sizes_of_16_bits_are_written(w: i32, h: i32)
    ensures
        lgd_write::size_error(w, h) is None <==> -32768 <= w <= 32767 && -32768 <= h <= 32767,
        !(-32768 <= w <= 32767) ==> lgd_write::size_error(w, h) == Some(
            lgd_write::LgdWriteError::WidthOutOfRange,
        ),
        -32768 <= w <= 32767 && !(-32768 <= h <= 32767) ==> lgd_write::size_error(w, h) == Some(
            lgd_write::LgdWriteError::HeightOutOfRange,
        ),
{
}

/// A written file has a fixed part of 80 bytes with a one at byte 31 and the height and width at
/// bytes 68 and 70, 12 zeros for each pixel, a header of 540 bytes whose second number is 1, and
/// four bytes for each value.
pub proof fn written_files_have_all_parts(logo: LogoView, i: int)
    requires
        lgd_write::is_writable(logo),
    ensures
        ({
            let b = lgd_write::lgd_bytes(logo);
            let ext = 80 + 12 * (logo.w * logo.h);
            let values = lgd_write::plane_values(logo).len();
            &&& b.len() == ext + 540 + 4 * values
            &&& 0 <= i < ext && i != 31 && !(68 <= i < 72) ==> b[i] == 0
            &&& b[31] == 1
            &&& b[68] + 256 * b[69] == logo.h
            &&& b[70] + 256 * b[71] == logo.w
            &&& bytes::le32_at(b, ext) == 0x12345
            &&& bytes::le32_at(b, ext + 4) == 1
            &&& ext + 300 <= i < ext + 540 ==> b[i] == 0
        }),
{
    let b = lgd_write::lgd_bytes(logo);
    let (w, h) = (logo.w as int, logo.h as int);
    assert(w * h > 0) by (nonlinear_arith)
        requires
            w > 0,
            h > 0,
    ;
    assert(w * h * 12 == 12 * (w * h)) by (nonlinear_arith);
    let ext = 80 + 12 * (w * h);
    let base = lgd_write::base_part(logo.w as i16, logo.h as i16);
    assert(base.len() == ext);
    lgd_write::fitting_name_is_a_prefix(logo.name);
    let header = lgd_write::header_words(logo);
    bytes::lemma_le32_words_len(header, header.len() as int);
    let values = lgd_write::plane_values(logo);
    bytes::lemma_le32_words_len(values, values.len() as int);
    let all = bytes::le32_all(header);
    assert(lgd_write::extended_header(logo).len() == 540);
    assert(b.subrange(ext, ext + 40) =~= all);
    bytes::le32_words_read_back(b, ext, header, 0);
    bytes::le32_words_read_back(b, ext, header, 1);
    assert(header[0] == 0x12345);
}

} // verus!
