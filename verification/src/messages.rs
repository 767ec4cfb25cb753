//! What messages tell.

use crate::logo::dict::FrameLengthMismatch;
use crate::logo::estimate::FrameSupplyError;
use crate::logo::frames::{FrameStreamError, RectError};
use crate::logo::hier::AssembleError;
use crate::logo::lgd::LgdParseError;
use crate::logo::scan::{InvalidCoefficient, OddRect, ScanError};
use crate::logo::score::LogoMaskError;
use crate::mp4io::order_map::{DtviMismatch, TiedCompositionTime};
use crate::mp4io::read::SampleTableError;
use crate::mp4io::write::WriteError;
use crate::text;
use vstd::prelude::*;

verus! {

/// The text has the words `label` somewhere, and behind them `value`.
pub open spec fn says(m: Seq<char>, label: Seq<char>, value: Seq<char>) -> bool {
    exists|a: Seq<char>, b: Seq<char>| #[trigger] is_made_of(m, a, label, value, b)
}

/// The text is these four, one behind another.
pub open spec fn is_made_of(
    m: Seq<char>,
    a: Seq<char>,
    label: Seq<char>,
    value: Seq<char>,
    b: Seq<char>,
) -> bool {
    m =~= a + label + value + b
}

proof fn lemma_first(label: Seq<char>, value: Seq<char>)
    ensures
        says(label + value, label, value),
{
    assert(is_made_of(label + value, Seq::empty(), label, value, Seq::empty()));
}

proof fn lemma_last(t: Seq<char>, label: Seq<char>, value: Seq<char>)
    ensures
        says(t + label + value, label, value),
{
    assert(is_made_of(t + label + value, t, label, value, Seq::empty()));
}

/// What a text says, it still says when more follows.
proof fn lemma_more(s: Seq<char>, more: Seq<char>)
    ensures
        forall|label: Seq<char>, value: Seq<char>|
            says(s, label, value) ==> #[trigger] says(s + more, label, value),
{
    assert forall|label: Seq<char>, value: Seq<char>| says(s, label, value) implies #[trigger] says(
        s + more,
        label,
        value,
    ) by {
        let (a, b) = choose|a: Seq<char>, b: Seq<char>| #[trigger]
            is_made_of(s, a, label, value, b);
        assert(is_made_of(s + more, a, label, value, b + more));
    }
}

/// What an error of sample tables says: each number behind the words that tell what it is.
pub proof fn table_errors_tell_their_numbers(e: SampleTableError)
    ensures
        match e {
            SampleTableError::SampleCountExceedsFile { count, file_len } => {
                &&& says(e.spec_message(), "stsz sample count ("@, text::decimal(count as nat))
                &&& says(e.spec_message(), ") が入力ファイル長 ("@, text::decimal(file_len as nat))
            },
            SampleTableError::SampleSizeExceedsFile { size, file_len } => {
                &&& says(e.spec_message(), "stsz sample size ("@, text::decimal(size as nat))
                &&& says(e.spec_message(), ") が入力ファイル長 ("@, text::decimal(file_len as nat))
            },
            SampleTableError::SampleSizeAtExceedsFile { index, size, file_len } => {
                &&& says(e.spec_message(), "stsz sample["@, text::decimal(index as nat))
                &&& says(e.spec_message(), "] size ("@, text::decimal(size as nat))
                &&& says(e.spec_message(), ") が入力ファイル長 ("@, text::decimal(file_len as nat))
            },
            SampleTableError::TotalSizeExceedsFile { total, file_len } => {
                &&& says(e.spec_message(), "stsz の合計サイズ ("@, text::decimal(total as nat))
                &&& says(e.spec_message(), ") が入力ファイル長 ("@, text::decimal(file_len as nat))
            },
            SampleTableError::TotalSizeOverflow { index } => {
                &&& says(e.spec_message(), "stsz のサイズ総和が u64 を overflow します（sample "@, text::decimal(index as nat))
            },
            SampleTableError::CountMismatch { table, sum, total } => {
                &&& says(e.spec_message(), " の sample_count 合計 ("@, text::decimal(sum as nat))
                &&& says(e.spec_message(), ") が stsz のサンプル数 ("@, text::decimal(total as nat))
            },
            _ => true,
        },
{
    match e {
        SampleTableError::SampleCountExceedsFile { count, file_len } => {
            let s = "stsz sample count ("@;
            lemma_first("stsz sample count ("@, text::decimal(count as nat));
            lemma_more(s, text::decimal(count as nat));
            let s = s + text::decimal(count as nat);
            let t = s;
            lemma_more(s, ") が入力ファイル長 ("@);
            let s = s + ") が入力ファイル長 ("@;
            lemma_last(t, ") が入力ファイル長 ("@, text::decimal(file_len as nat));
            lemma_more(s, text::decimal(file_len as nat));
            let s = s + text::decimal(file_len as nat);
            lemma_more(s, ") を超えています"@);
        },
        SampleTableError::SampleSizeExceedsFile { size, file_len } => {
            let s = "stsz sample size ("@;
            lemma_first("stsz sample size ("@, text::decimal(size as nat));
            lemma_more(s, text::decimal(size as nat));
            let s = s + text::decimal(size as nat);
            let t = s;
            lemma_more(s, ") が入力ファイル長 ("@);
            let s = s + ") が入力ファイル長 ("@;
            lemma_last(t, ") が入力ファイル長 ("@, text::decimal(file_len as nat));
            lemma_more(s, text::decimal(file_len as nat));
            let s = s + text::decimal(file_len as nat);
            lemma_more(s, ") を超えています"@);
        },
        SampleTableError::SampleSizeAtExceedsFile { index, size, file_len } => {
            let s = "stsz sample["@;
            lemma_first("stsz sample["@, text::decimal(index as nat));
            lemma_more(s, text::decimal(index as nat));
            let s = s + text::decimal(index as nat);
            let t = s;
            lemma_more(s, "] size ("@);
            let s = s + "] size ("@;
            lemma_last(t, "] size ("@, text::decimal(size as nat));
            lemma_more(s, text::decimal(size as nat));
            let s = s + text::decimal(size as nat);
            let t = s;
            lemma_more(s, ") が入力ファイル長 ("@);
            let s = s + ") が入力ファイル長 ("@;
            lemma_last(t, ") が入力ファイル長 ("@, text::decimal(file_len as nat));
            lemma_more(s, text::decimal(file_len as nat));
            let s = s + text::decimal(file_len as nat);
            lemma_more(s, ") を超えています"@);
        },
        SampleTableError::TotalSizeExceedsFile { total, file_len } => {
            let s = "stsz の合計サイズ ("@;
            lemma_first("stsz の合計サイズ ("@, text::decimal(total as nat));
            lemma_more(s, text::decimal(total as nat));
            let s = s + text::decimal(total as nat);
            let t = s;
            lemma_more(s, ") が入力ファイル長 ("@);
            let s = s + ") が入力ファイル長 ("@;
            lemma_last(t, ") が入力ファイル長 ("@, text::decimal(file_len as nat));
            lemma_more(s, text::decimal(file_len as nat));
            let s = s + text::decimal(file_len as nat);
            lemma_more(s, ") を超えています"@);
        },
        SampleTableError::TotalSizeOverflow { index } => {
            let s = "stsz のサイズ総和が u64 を overflow します（sample "@;
            lemma_first("stsz のサイズ総和が u64 を overflow します（sample "@, text::decimal(index as nat));
            lemma_more(s, text::decimal(index as nat));
            let s = s + text::decimal(index as nat);
            lemma_more(s, "）"@);
        },
        SampleTableError::CountMismatch { table, sum, total } => {
            let s = table.spec_name();
            let t = s;
            lemma_more(s, " の sample_count 合計 ("@);
            let s = s + " の sample_count 合計 ("@;
            lemma_last(t, " の sample_count 合計 ("@, text::decimal(sum as nat));
            lemma_more(s, text::decimal(sum as nat));
            let s = s + text::decimal(sum as nat);
            let t = s;
            lemma_more(s, ") が stsz のサンプル数 ("@);
            let s = s + ") が stsz のサンプル数 ("@;
            lemma_last(t, ") が stsz のサンプル数 ("@, text::decimal(total as nat));
            lemma_more(s, text::decimal(total as nat));
            let s = s + text::decimal(total as nat);
            lemma_more(s, ") と一致しません"@);
        },
        _ => {},
    }
}

/// What an error of writing says: each number behind the words that tell what it is.
pub proof fn write_errors_tell_their_numbers(e: WriteError)
    ensures
        match e {
            WriteError::KeepListCount { keep_lists, tracks } => {
                &&& says(e.spec_message(), "keep_per_track の長さ("@, text::decimal(keep_lists as nat))
                &&& says(e.spec_message(), ")が moov.trak の本数("@, text::decimal(tracks as nat))
            },
            WriteError::KeepOutOfRange { track_index, index, sample_count } => {
                &&& says(e.spec_message(), "track "@, text::decimal(track_index as nat))
                &&& says(e.spec_message(), ": DecodeIdx("@, text::decimal(index as nat))
                &&& says(e.spec_message(), ") がサンプル数("@, text::decimal(sample_count as nat))
            },
            _ => true,
        },
{
    match e {
        WriteError::KeepListCount { keep_lists, tracks } => {
            let s = "keep_per_track の長さ("@;
            lemma_first("keep_per_track の長さ("@, text::decimal(keep_lists as nat));
            lemma_more(s, text::decimal(keep_lists as nat));
            let s = s + text::decimal(keep_lists as nat);
            let t = s;
            lemma_more(s, ")が moov.trak の本数("@);
            let s = s + ")が moov.trak の本数("@;
            lemma_last(t, ")が moov.trak の本数("@, text::decimal(tracks as nat));
            lemma_more(s, text::decimal(tracks as nat));
            let s = s + text::decimal(tracks as nat);
            lemma_more(s, ")と一致しません"@);
        },
        WriteError::KeepOutOfRange { track_index, index, sample_count } => {
            let s = "track "@;
            lemma_first("track "@, text::decimal(track_index as nat));
            lemma_more(s, text::decimal(track_index as nat));
            let s = s + text::decimal(track_index as nat);
            let t = s;
            lemma_more(s, ": DecodeIdx("@);
            let s = s + ": DecodeIdx("@;
            lemma_last(t, ": DecodeIdx("@, text::decimal(index as nat));
            lemma_more(s, text::decimal(index as nat));
            let s = s + text::decimal(index as nat);
            let t = s;
            lemma_more(s, ") がサンプル数("@);
            let s = s + ") がサンプル数("@;
            lemma_last(t, ") がサンプル数("@, text::decimal(sample_count as nat));
            lemma_more(s, text::decimal(sample_count as nat));
            let s = s + text::decimal(sample_count as nat);
            lemma_more(s, ")の範囲外です"@);
        },
        _ => {},
    }
}

/// What a tie says: each number behind the words that tell what it is.
pub proof fn ties_tell_their_time(e: TiedCompositionTime)
    ensures
        says(e.spec_message(), "合成時刻 "@, text::signed_decimal(e.time as int)),
        says(e.spec_message(), " が複数のデコード順サンプルで同値です（デコード順インデックス: "@, crate::mp4io::order_map::bracketed(e.decode_indices@, e.decode_indices@.len() as int)),
{
    let s = "合成時刻 "@;
    lemma_first("合成時刻 "@, text::signed_decimal(e.time as int));
    lemma_more(s, text::signed_decimal(e.time as int));
    let s = s + text::signed_decimal(e.time as int);
    let t = s;
    lemma_more(s, " が複数のデコード順サンプルで同値です（デコード順インデックス: "@);
    let s = s + " が複数のデコード順サンプルで同値です（デコード順インデックス: "@;
    lemma_last(t, " が複数のデコード順サンプルで同値です（デコード順インデックス: "@, crate::mp4io::order_map::bracketed(e.decode_indices@, e.decode_indices@.len() as int));
    lemma_more(s, crate::mp4io::order_map::bracketed(e.decode_indices@, e.decode_indices@.len() as int));
    let s = s + crate::mp4io::order_map::bracketed(e.decode_indices@, e.decode_indices@.len() as int);
    lemma_more(s, "]）"@);
}

/// What a mismatch says: each number behind the words that tell what it is.
pub proof fn mismatches_tell_both_numbers(e: DtviMismatch)
    ensures
        match e {
            DtviMismatch::MissingFrame { frame_number, sample_number } => {
                &&& says(e.spec_message(), "frame_number="@, text::decimal(frame_number.0 as nat))
                &&& says(e.spec_message(), " に対応するデコード順インデックスが自前導出に存在しません（.dtvi の sample_number="@, text::decimal(sample_number.0 as nat))
            },
            DtviMismatch::SampleNumber { frame_number, indexed, derived } => {
                &&& says(e.spec_message(), "frame_number="@, text::decimal(frame_number.0 as nat))
                &&& says(e.spec_message(), " の sample_number が不一致です（.dtvi="@, text::decimal(indexed.0 as nat))
                &&& says(e.spec_message(), ", 自前導出="@, text::decimal(derived.0 as nat))
            },
            DtviMismatch::MissingSync { frame_number, sample_number } => {
                &&& says(e.spec_message(), "frame_number="@, text::decimal(frame_number.0 as nat))
                &&& says(e.spec_message(), " (sample_number="@, text::decimal(sample_number.0 as nat))
            },
            DtviMismatch::RandomAccess { frame_number, indexed, derived } => {
                &&& says(e.spec_message(), "frame_number="@, text::decimal(frame_number.0 as nat))
                &&& says(e.spec_message(), " の random_access_sample が不一致です（.dtvi="@, text::decimal(indexed.0 as nat))
                &&& says(e.spec_message(), ", 自前導出="@, text::decimal(derived.0 as nat))
            },
        },
{
    match e {
        DtviMismatch::MissingFrame { frame_number, sample_number } => {
            let s = "frame_number="@;
            lemma_first("frame_number="@, text::decimal(frame_number.0 as nat));
            lemma_more(s, text::decimal(frame_number.0 as nat));
            let s = s + text::decimal(frame_number.0 as nat);
            let t = s;
            lemma_more(s, " に対応するデコード順インデックスが自前導出に存在しません（.dtvi の sample_number="@);
            let s = s + " に対応するデコード順インデックスが自前導出に存在しません（.dtvi の sample_number="@;
            lemma_last(t, " に対応するデコード順インデックスが自前導出に存在しません（.dtvi の sample_number="@, text::decimal(sample_number.0 as nat));
            lemma_more(s, text::decimal(sample_number.0 as nat));
            let s = s + text::decimal(sample_number.0 as nat);
            lemma_more(s, "）"@);
        },
        DtviMismatch::SampleNumber { frame_number, indexed, derived } => {
            let s = "frame_number="@;
            lemma_first("frame_number="@, text::decimal(frame_number.0 as nat));
            lemma_more(s, text::decimal(frame_number.0 as nat));
            let s = s + text::decimal(frame_number.0 as nat);
            let t = s;
            lemma_more(s, " の sample_number が不一致です（.dtvi="@);
            let s = s + " の sample_number が不一致です（.dtvi="@;
            lemma_last(t, " の sample_number が不一致です（.dtvi="@, text::decimal(indexed.0 as nat));
            lemma_more(s, text::decimal(indexed.0 as nat));
            let s = s + text::decimal(indexed.0 as nat);
            let t = s;
            lemma_more(s, ", 自前導出="@);
            let s = s + ", 自前導出="@;
            lemma_last(t, ", 自前導出="@, text::decimal(derived.0 as nat));
            lemma_more(s, text::decimal(derived.0 as nat));
            let s = s + text::decimal(derived.0 as nat);
            lemma_more(s, "）"@);
        },
        DtviMismatch::MissingSync { frame_number, sample_number } => {
            let s = "frame_number="@;
            lemma_first("frame_number="@, text::decimal(frame_number.0 as nat));
            lemma_more(s, text::decimal(frame_number.0 as nat));
            let s = s + text::decimal(frame_number.0 as nat);
            let t = s;
            lemma_more(s, " (sample_number="@);
            let s = s + " (sample_number="@;
            lemma_last(t, " (sample_number="@, text::decimal(sample_number.0 as nat));
            lemma_more(s, text::decimal(sample_number.0 as nat));
            let s = s + text::decimal(sample_number.0 as nat);
            lemma_more(s, ") の直前の同期サンプルが自前導出に存在しません"@);
        },
        DtviMismatch::RandomAccess { frame_number, indexed, derived } => {
            let s = "frame_number="@;
            lemma_first("frame_number="@, text::decimal(frame_number.0 as nat));
            lemma_more(s, text::decimal(frame_number.0 as nat));
            let s = s + text::decimal(frame_number.0 as nat);
            let t = s;
            lemma_more(s, " の random_access_sample が不一致です（.dtvi="@);
            let s = s + " の random_access_sample が不一致です（.dtvi="@;
            lemma_last(t, " の random_access_sample が不一致です（.dtvi="@, text::decimal(indexed.0 as nat));
            lemma_more(s, text::decimal(indexed.0 as nat));
            let s = s + text::decimal(indexed.0 as nat);
            let t = s;
            lemma_more(s, ", 自前導出="@);
            let s = s + ", 自前導出="@;
            lemma_last(t, ", 自前導出="@, text::decimal(derived.0 as nat));
            lemma_more(s, text::decimal(derived.0 as nat));
            let s = s + text::decimal(derived.0 as nat);
            lemma_more(s, "）"@);
        },
    }
}

/// What an error of a logo file says: each number behind the words that tell what it is.
pub proof fn logo_file_errors_tell_their_numbers(e: LgdParseError)
    ensures
        match e {
            LgdParseError::TooShortForBaseHeader { actual } => {
                &&& says(e.spec_message(), ".lgd のベース部固定長ヘッダ（80 バイト）に届きません（実際 "@, text::decimal(actual as nat))
            },
            LgdParseError::TooShortForBasePixels { needed, actual } => {
                &&& says(e.spec_message(), ".lgd のベース部ピクセルデータの末尾（"@, text::decimal(needed as nat))
                &&& says(e.spec_message(), " バイト目）に届きません（実際 "@, text::decimal(actual as nat))
            },
            LgdParseError::TooShortForExtendedHeader { needed, actual } => {
                &&& says(e.spec_message(), ".lgd の Amatsukaze 独自部 LogoHeader（"@, text::decimal(needed as nat))
                &&& says(e.spec_message(), " バイト目まで、540 バイト分）に届きません（実際 "@, text::decimal(actual as nat))
            },
            LgdParseError::MagicMismatch { found } => {
                &&& says(e.spec_message(), ".lgd の LogoHeader.magic が 0x12345 と一致しません（実際 0x"@, text::hexadecimal(found as nat))
            },
            LgdParseError::BaseExtendedSizeMismatch { base_w, base_h, ext_w, ext_h } => {
                &&& says(e.spec_message(), ".lgd のベース部 LOGO_HEADER の w/h（"@, text::signed_decimal(base_w as int))
                &&& says(e.spec_message(), "x"@, text::signed_decimal(base_h as int))
                &&& says(e.spec_message(), "）と Amatsukaze 独自部 LogoHeader の w/h（"@, text::signed_decimal(ext_w as int))
                &&& says(e.spec_message(), "x"@, text::signed_decimal(ext_h as int))
            },
            LgdParseError::NonPositiveSize { w, h } => {
                &&& says(e.spec_message(), ".lgd の LogoHeader.w/h が 0 以下です（w="@, text::signed_decimal(w as int))
                &&& says(e.spec_message(), ", h="@, text::signed_decimal(h as int))
            },
            LgdParseError::InvalidChromaShift { log_uv_x, log_uv_y } => {
                &&& says(e.spec_message(), ".lgd の LogoHeader.logUVx/logUVy が不正です（log_uv_x="@, text::signed_decimal(log_uv_x as int))
                &&& says(e.spec_message(), ", log_uv_y="@, text::signed_decimal(log_uv_y as int))
            },
            LgdParseError::TooShortForFloatPlanes { needed, actual } => {
                &&& says(e.spec_message(), ".lgd の float 部（aY/bY/aU/bU/aV/bV）の末尾（"@, text::decimal(needed as nat))
                &&& says(e.spec_message(), " バイト目）に届きません（実際 "@, text::decimal(actual as nat))
            },
        },
{
    match e {
        LgdParseError::TooShortForBaseHeader { actual } => {
            let s = ".lgd のベース部固定長ヘッダ（80 バイト）に届きません（実際 "@;
            lemma_first(".lgd のベース部固定長ヘッダ（80 バイト）に届きません（実際 "@, text::decimal(actual as nat));
            lemma_more(s, text::decimal(actual as nat));
            let s = s + text::decimal(actual as nat);
            lemma_more(s, " バイト）"@);
        },
        LgdParseError::TooShortForBasePixels { needed, actual } => {
            let s = ".lgd のベース部ピクセルデータの末尾（"@;
            lemma_first(".lgd のベース部ピクセルデータの末尾（"@, text::decimal(needed as nat));
            lemma_more(s, text::decimal(needed as nat));
            let s = s + text::decimal(needed as nat);
            let t = s;
            lemma_more(s, " バイト目）に届きません（実際 "@);
            let s = s + " バイト目）に届きません（実際 "@;
            lemma_last(t, " バイト目）に届きません（実際 "@, text::decimal(actual as nat));
            lemma_more(s, text::decimal(actual as nat));
            let s = s + text::decimal(actual as nat);
            lemma_more(s, " バイト）"@);
        },
        LgdParseError::TooShortForExtendedHeader { needed, actual } => {
            let s = ".lgd の Amatsukaze 独自部 LogoHeader（"@;
            lemma_first(".lgd の Amatsukaze 独自部 LogoHeader（"@, text::decimal(needed as nat));
            lemma_more(s, text::decimal(needed as nat));
            let s = s + text::decimal(needed as nat);
            let t = s;
            lemma_more(s, " バイト目まで、540 バイト分）に届きません（実際 "@);
            let s = s + " バイト目まで、540 バイト分）に届きません（実際 "@;
            lemma_last(t, " バイト目まで、540 バイト分）に届きません（実際 "@, text::decimal(actual as nat));
            lemma_more(s, text::decimal(actual as nat));
            let s = s + text::decimal(actual as nat);
            lemma_more(s, " バイト）"@);
        },
        LgdParseError::MagicMismatch { found } => {
            let s = ".lgd の LogoHeader.magic が 0x12345 と一致しません（実際 0x"@;
            lemma_first(".lgd の LogoHeader.magic が 0x12345 と一致しません（実際 0x"@, text::hexadecimal(found as nat));
            lemma_more(s, text::hexadecimal(found as nat));
            let s = s + text::hexadecimal(found as nat);
            lemma_more(s, "）"@);
        },
        LgdParseError::BaseExtendedSizeMismatch { base_w, base_h, ext_w, ext_h } => {
            let s = ".lgd のベース部 LOGO_HEADER の w/h（"@;
            lemma_first(".lgd のベース部 LOGO_HEADER の w/h（"@, text::signed_decimal(base_w as int));
            lemma_more(s, text::signed_decimal(base_w as int));
            let s = s + text::signed_decimal(base_w as int);
            let t = s;
            lemma_more(s, "x"@);
            let s = s + "x"@;
            lemma_last(t, "x"@, text::signed_decimal(base_h as int));
            lemma_more(s, text::signed_decimal(base_h as int));
            let s = s + text::signed_decimal(base_h as int);
            let t = s;
            lemma_more(s, "）と Amatsukaze 独自部 LogoHeader の w/h（"@);
            let s = s + "）と Amatsukaze 独自部 LogoHeader の w/h（"@;
            lemma_last(t, "）と Amatsukaze 独自部 LogoHeader の w/h（"@, text::signed_decimal(ext_w as int));
            lemma_more(s, text::signed_decimal(ext_w as int));
            let s = s + text::signed_decimal(ext_w as int);
            let t = s;
            lemma_more(s, "x"@);
            let s = s + "x"@;
            lemma_last(t, "x"@, text::signed_decimal(ext_h as int));
            lemma_more(s, text::signed_decimal(ext_h as int));
            let s = s + text::signed_decimal(ext_h as int);
            lemma_more(s, "）が食い違います"@);
        },
        LgdParseError::NonPositiveSize { w, h } => {
            let s = ".lgd の LogoHeader.w/h が 0 以下です（w="@;
            lemma_first(".lgd の LogoHeader.w/h が 0 以下です（w="@, text::signed_decimal(w as int));
            lemma_more(s, text::signed_decimal(w as int));
            let s = s + text::signed_decimal(w as int);
            let t = s;
            lemma_more(s, ", h="@);
            let s = s + ", h="@;
            lemma_last(t, ", h="@, text::signed_decimal(h as int));
            lemma_more(s, text::signed_decimal(h as int));
            let s = s + text::signed_decimal(h as int);
            lemma_more(s, "）"@);
        },
        LgdParseError::InvalidChromaShift { log_uv_x, log_uv_y } => {
            let s = ".lgd の LogoHeader.logUVx/logUVy が不正です（log_uv_x="@;
            lemma_first(".lgd の LogoHeader.logUVx/logUVy が不正です（log_uv_x="@, text::signed_decimal(log_uv_x as int));
            lemma_more(s, text::signed_decimal(log_uv_x as int));
            let s = s + text::signed_decimal(log_uv_x as int);
            let t = s;
            lemma_more(s, ", log_uv_y="@);
            let s = s + ", log_uv_y="@;
            lemma_last(t, ", log_uv_y="@, text::signed_decimal(log_uv_y as int));
            lemma_more(s, text::signed_decimal(log_uv_y as int));
            let s = s + text::signed_decimal(log_uv_y as int);
            lemma_more(s, ", 0..32 の範囲が必要）"@);
        },
        LgdParseError::TooShortForFloatPlanes { needed, actual } => {
            let s = ".lgd の float 部（aY/bY/aU/bU/aV/bV）の末尾（"@;
            lemma_first(".lgd の float 部（aY/bY/aU/bU/aV/bV）の末尾（"@, text::decimal(needed as nat));
            lemma_more(s, text::decimal(needed as nat));
            let s = s + text::decimal(needed as nat);
            let t = s;
            lemma_more(s, " バイト目）に届きません（実際 "@);
            let s = s + " バイト目）に届きません（実際 "@;
            lemma_last(t, " バイト目）に届きません（実際 "@, text::decimal(actual as nat));
            lemma_more(s, text::decimal(actual as nat));
            let s = s + text::decimal(actual as nat);
            lemma_more(s, " バイト）"@);
        },
    }
}

/// What an error of a rectangle says: each number behind the words that tell what it is.
pub proof fn rectangle_errors_tell_the_rectangle(e: RectError)
    ensures
        match e {
            RectError::ZeroSize { w, h } => {
                &&& says(e.spec_message(), "ロゴ矩形の幅・高さは正の値である必要があります: w="@, text::decimal(w as nat))
                &&& says(e.spec_message(), ", h="@, text::decimal(h as nat))
            },
            RectError::OutsideVideo { rect, width, height } => {
                &&& says(e.spec_message(), "ロゴ矩形が映像範囲の外に出ています: 矩形=(x="@, text::decimal(rect.x as nat))
                &&& says(e.spec_message(), ", y="@, text::decimal(rect.y as nat))
                &&& says(e.spec_message(), ", w="@, text::decimal(rect.w as nat))
                &&& says(e.spec_message(), ", h="@, text::decimal(rect.h as nat))
                &&& says(e.spec_message(), "), 映像=("@, text::decimal(width as nat))
                &&& says(e.spec_message(), "x"@, text::decimal(height as nat))
            },
            RectError::ZeroVideo { width, height } => {
                &&& says(e.spec_message(), "映像サイズが不正です: width="@, text::decimal(width as nat))
                &&& says(e.spec_message(), ", height="@, text::decimal(height as nat))
            },
        },
{
    match e {
        RectError::ZeroSize { w, h } => {
            let s = "ロゴ矩形の幅・高さは正の値である必要があります: w="@;
            lemma_first("ロゴ矩形の幅・高さは正の値である必要があります: w="@, text::decimal(w as nat));
            lemma_more(s, text::decimal(w as nat));
            let s = s + text::decimal(w as nat);
            let t = s;
            lemma_more(s, ", h="@);
            let s = s + ", h="@;
            lemma_last(t, ", h="@, text::decimal(h as nat));
            lemma_more(s, text::decimal(h as nat));
        },
        RectError::OutsideVideo { rect, width, height } => {
            let s = "ロゴ矩形が映像範囲の外に出ています: 矩形=(x="@;
            lemma_first("ロゴ矩形が映像範囲の外に出ています: 矩形=(x="@, text::decimal(rect.x as nat));
            lemma_more(s, text::decimal(rect.x as nat));
            let s = s + text::decimal(rect.x as nat);
            let t = s;
            lemma_more(s, ", y="@);
            let s = s + ", y="@;
            lemma_last(t, ", y="@, text::decimal(rect.y as nat));
            lemma_more(s, text::decimal(rect.y as nat));
            let s = s + text::decimal(rect.y as nat);
            let t = s;
            lemma_more(s, ", w="@);
            let s = s + ", w="@;
            lemma_last(t, ", w="@, text::decimal(rect.w as nat));
            lemma_more(s, text::decimal(rect.w as nat));
            let s = s + text::decimal(rect.w as nat);
            let t = s;
            lemma_more(s, ", h="@);
            let s = s + ", h="@;
            lemma_last(t, ", h="@, text::decimal(rect.h as nat));
            lemma_more(s, text::decimal(rect.h as nat));
            let s = s + text::decimal(rect.h as nat);
            let t = s;
            lemma_more(s, "), 映像=("@);
            let s = s + "), 映像=("@;
            lemma_last(t, "), 映像=("@, text::decimal(width as nat));
            lemma_more(s, text::decimal(width as nat));
            let s = s + text::decimal(width as nat);
            let t = s;
            lemma_more(s, "x"@);
            let s = s + "x"@;
            lemma_last(t, "x"@, text::decimal(height as nat));
            lemma_more(s, text::decimal(height as nat));
            let s = s + text::decimal(height as nat);
            lemma_more(s, ")。x+w<=映像幅 かつ y+h<=映像高さ である必要があります。"@);
        },
        RectError::ZeroVideo { width, height } => {
            let s = "映像サイズが不正です: width="@;
            lemma_first("映像サイズが不正です: width="@, text::decimal(width as nat));
            lemma_more(s, text::decimal(width as nat));
            let s = s + text::decimal(width as nat);
            let t = s;
            lemma_more(s, ", height="@);
            let s = s + ", height="@;
            lemma_last(t, ", height="@, text::decimal(height as nat));
            lemma_more(s, text::decimal(height as nat));
            let s = s + text::decimal(height as nat);
            lemma_more(s, "。0を含む値のまま ffmpeg を起動すると1フレームのバイト数が0になり、誰も読まない標準出力パイプが埋まって `wait()` が返らずハングします。"@);
        },
    }
}

/// What an error of a stream of frames says: each number behind the words that tell what it is.
pub proof fn stream_errors_tell_their_numbers(e: FrameStreamError)
    ensures
        match e {
            FrameStreamError::PartialFrame { frame_bytes, frame_count, partial } => {
                &&& says(e.spec_message(), "ffmpeg の出力が1フレーム分のバイト数("@, text::decimal(frame_bytes as nat))
                &&& says(e.spec_message(), "バイト)の倍数になっていません: フレーム"@, text::decimal(frame_count as nat))
                &&& says(e.spec_message(), "個目の途中、実際は"@, text::decimal(partial as nat))
            },
            FrameStreamError::FrameCount { frame_count, expected } => {
                &&& says(e.spec_message(), "ffmpeg から読み取ったフレーム数("@, text::decimal(frame_count as nat))
                &&& says(e.spec_message(), ")が .dtvi の frame_count("@, text::decimal(expected as nat))
            },
            _ => true,
        },
{
    match e {
        FrameStreamError::PartialFrame { frame_bytes, frame_count, partial } => {
            let s = "ffmpeg の出力が1フレーム分のバイト数("@;
            lemma_first("ffmpeg の出力が1フレーム分のバイト数("@, text::decimal(frame_bytes as nat));
            lemma_more(s, text::decimal(frame_bytes as nat));
            let s = s + text::decimal(frame_bytes as nat);
            let t = s;
            lemma_more(s, "バイト)の倍数になっていません: フレーム"@);
            let s = s + "バイト)の倍数になっていません: フレーム"@;
            lemma_last(t, "バイト)の倍数になっていません: フレーム"@, text::decimal(frame_count as nat));
            lemma_more(s, text::decimal(frame_count as nat));
            let s = s + text::decimal(frame_count as nat);
            let t = s;
            lemma_more(s, "個目の途中、実際は"@);
            let s = s + "個目の途中、実際は"@;
            lemma_last(t, "個目の途中、実際は"@, text::decimal(partial as nat));
            lemma_more(s, text::decimal(partial as nat));
            let s = s + text::decimal(partial as nat);
            lemma_more(s, "バイトで終わっています。ロゴ矩形の座標や crop フィルタの指定を確認してください。"@);
        },
        FrameStreamError::FrameCount { frame_count, expected } => {
            let s = "ffmpeg から読み取ったフレーム数("@;
            lemma_first("ffmpeg から読み取ったフレーム数("@, text::decimal(frame_count as nat));
            lemma_more(s, text::decimal(frame_count as nat));
            let s = s + text::decimal(frame_count as nat);
            let t = s;
            lemma_more(s, ")が .dtvi の frame_count("@);
            let s = s + ")が .dtvi の frame_count("@;
            lemma_last(t, ")が .dtvi の frame_count("@, text::decimal(expected as nat));
            lemma_more(s, text::decimal(expected as nat));
            let s = s + text::decimal(expected as nat);
            lemma_more(s, ")と一致しません。この不一致を無視して後続のロゴ検出に進むと、ロゴ区間だけがフレーム数ぶんずれた Trim が出て、CM の位置が黙ってずれます（join_logo_scp はこのずれをエラーにしません）。"@);
        },
        _ => {},
    }
}

/// What an error of putting values together says: each number behind the words that tell what it is.
pub proof fn assembly_errors_tell_their_frames(e: AssembleError)
    ensures
        match e {
            AssembleError::FirstIsNoKeyframe { first } => {
                &&& says(e.spec_message(), "先頭フレームは常にキーフレームである前提が崩れている: "@, text::decimal(first as nat))
            },
            AssembleError::BeyondEnd { idx, total } => {
                &&& says(e.spec_message(), "精緻化範囲が全フレーム数を超えています: idx="@, text::decimal(idx as nat))
                &&& says(e.spec_message(), ", total="@, text::decimal(total as nat))
            },
            _ => true,
        },
{
    match e {
        AssembleError::FirstIsNoKeyframe { first } => {
            let s = "先頭フレームは常にキーフレームである前提が崩れている: "@;
            lemma_first("先頭フレームは常にキーフレームである前提が崩れている: "@, text::decimal(first as nat));
            lemma_more(s, text::decimal(first as nat));
        },
        AssembleError::BeyondEnd { idx, total } => {
            let s = "精緻化範囲が全フレーム数を超えています: idx="@;
            lemma_first("精緻化範囲が全フレーム数を超えています: idx="@, text::decimal(idx as nat));
            lemma_more(s, text::decimal(idx as nat));
            let s = s + text::decimal(idx as nat);
            let t = s;
            lemma_more(s, ", total="@);
            let s = s + ", total="@;
            lemma_last(t, ", total="@, text::decimal(total as nat));
            lemma_more(s, text::decimal(total as nat));
        },
        _ => {},
    }
}

/// What an error of the supply of frames says: each number behind the words that tell what it is.
pub proof fn supply_errors_tell_both_numbers(e: FrameSupplyError)
    ensures
        match e {
            FrameSupplyError::Summing { total, actual } => {
                &&& says(e.spec_message(), "フレーム供給関数が1回目("@, text::decimal(total as nat))
                &&& says(e.spec_message(), "枚)と2回目("@, text::decimal(actual as nat))
            },
            FrameSupplyError::Measuring { total, actual } => {
                &&& says(e.spec_message(), "フレーム供給関数がAUC採点用の3回目の呼び出しで"@, text::decimal(actual as nat))
                &&& says(e.spec_message(), "枚を返しましたが、1・2回目は"@, text::decimal(total as nat))
            },
        },
{
    match e {
        FrameSupplyError::Summing { total, actual } => {
            let s = "フレーム供給関数が1回目("@;
            lemma_first("フレーム供給関数が1回目("@, text::decimal(total as nat));
            lemma_more(s, text::decimal(total as nat));
            let s = s + text::decimal(total as nat);
            let t = s;
            lemma_more(s, "枚)と2回目("@);
            let s = s + "枚)と2回目("@;
            lemma_last(t, "枚)と2回目("@, text::decimal(actual as nat));
            lemma_more(s, text::decimal(actual as nat));
            let s = s + text::decimal(actual as nat);
            lemma_more(s, "枚)で異なる枚数を返しました。ブロック割当て（総標本数 × フレーム番号 / 16）は2回とも同じ枚数が流れることを前提にしており、食い違うと統計量が静かに歪みます。"@);
        },
        FrameSupplyError::Measuring { total, actual } => {
            let s = "フレーム供給関数がAUC採点用の3回目の呼び出しで"@;
            lemma_first("フレーム供給関数がAUC採点用の3回目の呼び出しで"@, text::decimal(actual as nat));
            lemma_more(s, text::decimal(actual as nat));
            let s = s + text::decimal(actual as nat);
            let t = s;
            lemma_more(s, "枚を返しましたが、1・2回目は"@);
            let s = s + "枚を返しましたが、1・2回目は"@;
            lemma_last(t, "枚を返しましたが、1・2回目は"@, text::decimal(total as nat));
            lemma_more(s, text::decimal(total as nat));
            let s = s + text::decimal(total as nat);
            lemma_more(s, "枚でした。ブロック割当てと同じ理由で、3回とも同じ枚数が流れることを前提にしています。"@);
        },
    }
}

/// What an error of learning says: each number behind the words that tell what it is.
pub proof fn learning_errors_tell_the_frames(e: ScanError)
    ensures
        match e {
            ScanError::NoUsableFrames { total_frames } => {
                &&& says(e.spec_message(), "単色判定を通った有効フレームが0件でした（全"@, text::decimal(total_frames as nat))
            },
            ScanError::TooFewUsableFrames { used_frames, total_frames } => {
                &&& says(e.spec_message(), "単色判定を通った有効フレームが"@, text::decimal(used_frames as nat))
                &&& says(e.spec_message(), "件しかありません（全"@, text::decimal(total_frames as nat))
                &&& says(e.spec_message(), "フレーム中、下限は"@, text::decimal(4))
            },
        },
{
    match e {
        ScanError::NoUsableFrames { total_frames } => {
            let s = "単色判定を通った有効フレームが0件でした（全"@;
            lemma_first("単色判定を通った有効フレームが0件でした（全"@, text::decimal(total_frames as nat));
            lemma_more(s, text::decimal(total_frames as nat));
            let s = s + text::decimal(total_frames as nat);
            lemma_more(s, "フレーム中）。ロゴ周りが単色になっているフレームが見つからないと学習できません （矩形の位置や --threshold を見直してください）。"@);
        },
        ScanError::TooFewUsableFrames { used_frames, total_frames } => {
            let s = "単色判定を通った有効フレームが"@;
            lemma_first("単色判定を通った有効フレームが"@, text::decimal(used_frames as nat));
            lemma_more(s, text::decimal(used_frames as nat));
            let s = s + text::decimal(used_frames as nat);
            let t = s;
            lemma_more(s, "件しかありません（全"@);
            let s = s + "件しかありません（全"@;
            lemma_last(t, "件しかありません（全"@, text::decimal(total_frames as nat));
            lemma_more(s, text::decimal(total_frames as nat));
            let s = s + text::decimal(total_frames as nat);
            let t = s;
            lemma_more(s, "フレーム中、下限は"@);
            let s = s + "フレーム中、下限は"@;
            lemma_last(t, "フレーム中、下限は"@, text::decimal(4));
            lemma_more(s, text::decimal(4));
            let s = s + text::decimal(4);
            lemma_more(s, "件）。件数が極端に少ないと、回帰係数が偶然有限値になり不正な検出に気づけないため、壊れたロゴデータを書き出さずに失敗させています（矩形の位置や --threshold を見直してください）。"@);
        },
    }
}

/// What a coefficient that cannot be used says: each number behind the words that tell what it is.
pub proof fn bad_coefficients_tell_the_pixel(e: InvalidCoefficient, a: Seq<char>, b: Seq<char>)
    ensures
        says(e.spec_message(a, b), "画素"@, text::decimal(e.pixel_index as nat)),
        says(e.spec_message(a, b), "個目の回帰係数が不正です（a="@, a),
        says(e.spec_message(a, b), ", b="@, b),
        says(e.spec_message(a, b), "）。有効フレーム"@, text::decimal(e.used_frames as nat)),
{
    let s = "画素"@;
    lemma_first("画素"@, text::decimal(e.pixel_index as nat));
    lemma_more(s, text::decimal(e.pixel_index as nat));
    let s = s + text::decimal(e.pixel_index as nat);
    let t = s;
    lemma_more(s, "個目の回帰係数が不正です（a="@);
    let s = s + "個目の回帰係数が不正です（a="@;
    lemma_last(t, "個目の回帰係数が不正です（a="@, a);
    lemma_more(s, a);
    let s = s + a;
    let t = s;
    lemma_more(s, ", b="@);
    let s = s + ", b="@;
    lemma_last(t, ", b="@, b);
    lemma_more(s, b);
    let s = s + b;
    let t = s;
    lemma_more(s, "）。有効フレーム"@);
    let s = s + "）。有効フレーム"@;
    lemma_last(t, "）。有効フレーム"@, text::decimal(e.used_frames as nat));
    lemma_more(s, text::decimal(e.used_frames as nat));
    let s = s + text::decimal(e.used_frames as nat);
    lemma_more(s, "件では学習できません（フレームが足りない、または画素の観測値が全フレームで同一で分散が0になっている（完全不透明な画素・一様な背景など）可能性があります）。壊れたロゴデータを書き出さずに失敗させています。"@);
}

/// What an odd rectangle says: each number behind the words that tell what it is.
pub proof fn odd_rectangles_tell_their_size(e: OddRect)
    ensures
        says(e.spec_message(), "ロゴ矩形の w/h は2の倍数である必要があります（クロマの間引きに合わせるため、round_rect_to_even で丸めてから渡すこと）: w="@, text::decimal(e.w as nat)),
        says(e.spec_message(), ", h="@, text::decimal(e.h as nat)),
{
    let s = "ロゴ矩形の w/h は2の倍数である必要があります（クロマの間引きに合わせるため、round_rect_to_even で丸めてから渡すこと）: w="@;
    lemma_first("ロゴ矩形の w/h は2の倍数である必要があります（クロマの間引きに合わせるため、round_rect_to_even で丸めてから渡すこと）: w="@, text::decimal(e.w as nat));
    lemma_more(s, text::decimal(e.w as nat));
    let s = s + text::decimal(e.w as nat);
    let t = s;
    lemma_more(s, ", h="@);
    let s = s + ", h="@;
    lemma_last(t, ", h="@, text::decimal(e.h as nat));
    lemma_more(s, text::decimal(e.h as nat));
}

/// What a mask that is too small says: each number behind the words that tell what it is.
pub proof fn small_masks_tell_their_size(e: LogoMaskError)
    ensures
        match e {
            LogoMaskError::TooSmall { w, h } => {
                &&& says(e.spec_message(), "LogoMask::new: w="@, text::signed_decimal(w as int))
                &&& says(e.spec_message(), ", h="@, text::signed_decimal(h as int))
            },
        },
{
    match e {
        LogoMaskError::TooSmall { w, h } => {
            let s = "LogoMask::new: w="@;
            lemma_first("LogoMask::new: w="@, text::signed_decimal(w as int));
            lemma_more(s, text::signed_decimal(w as int));
            let s = s + text::signed_decimal(w as int);
            let t = s;
            lemma_more(s, ", h="@);
            let s = s + ", h="@;
            lemma_last(t, ", h="@, text::signed_decimal(h as int));
            lemma_more(s, text::signed_decimal(h as int));
            let s = s + text::signed_decimal(h as int);
            lemma_more(s, " は 5x5 窓を置くには小さすぎる（5 以上が必要）"@);
        },
    }
}

/// What a frame of the wrong length says: each number behind the words that tell what it is.
pub proof fn wrong_lengths_tell_the_size(e: FrameLengthMismatch)
    ensures
        says(e.spec_message(), "stream_keyframes が渡したフレームのバイト数("@, text::decimal(e.actual as nat)),
        says(e.spec_message(), ")が video_size("@, text::decimal(e.video_size.width as nat)),
        says(e.spec_message(), "x"@, text::decimal(e.video_size.height as nat)),
        says(e.spec_message(), "="@, text::decimal((e.video_size.width * e.video_size.height) as nat)),
{
    let s = "stream_keyframes が渡したフレームのバイト数("@;
    lemma_first("stream_keyframes が渡したフレームのバイト数("@, text::decimal(e.actual as nat));
    lemma_more(s, text::decimal(e.actual as nat));
    let s = s + text::decimal(e.actual as nat);
    let t = s;
    lemma_more(s, ")が video_size("@);
    let s = s + ")が video_size("@;
    lemma_last(t, ")が video_size("@, text::decimal(e.video_size.width as nat));
    lemma_more(s, text::decimal(e.video_size.width as nat));
    let s = s + text::decimal(e.video_size.width as nat);
    let t = s;
    lemma_more(s, "x"@);
    let s = s + "x"@;
    lemma_last(t, "x"@, text::decimal(e.video_size.height as nat));
    lemma_more(s, text::decimal(e.video_size.height as nat));
    let s = s + text::decimal(e.video_size.height as nat);
    let t = s;
    lemma_more(s, "="@);
    let s = s + "="@;
    lemma_last(t, "="@, text::decimal((e.video_size.width * e.video_size.height) as nat));
    lemma_more(s, text::decimal((e.video_size.width * e.video_size.height) as nat));
    let s = s + text::decimal((e.video_size.width * e.video_size.height) as nat);
    lemma_more(s, "バイト)と一致しません。呼び出し側の video_size 指定が実際のフレームと食い違っています。"@);
}

} // verus!
