use std::io::{Cursor, Read};

use tachikaze::logo::frames::{
    build_ffmpeg_args, FrameRequest, FrameSplitter, FrameStreamError, LogoRect, ReadEnd, RectError,
    StreamOutcome, VideoSize,
};

/// Hands the frames of a stream to `on_frame` until the stream ends.
fn split_stream<R: Read>(
    mut reader: R,
    splitter: &mut FrameSplitter,
    mut on_frame: impl FnMut(&[u8]) -> Result<(), String>,
) -> Result<(), String> {
    loop {
        let mut buffer = vec![0u8; splitter.wanted()];
        let n = reader.read(&mut buffer).map_err(|e| e.to_string())?;
        if n == 0 {
            return Ok(());
        }
        if let Some(frame) = splitter.accept(&buffer[..n]) {
            on_frame(&frame)?;
        }
    }
}

fn read_frames<R: Read>(
    reader: R,
    frame_bytes: usize,
    expected_frame_count: u64,
    on_frame: impl FnMut(&[u8]) -> Result<(), String>,
) -> Result<u64, String> {
    let mut splitter = FrameSplitter::new(frame_bytes);
    split_stream(reader, &mut splitter, on_frame)?;
    splitter.read_frames(expected_frame_count).map_err(|e| e.message())
}

fn read_keyframe_frames<R: Read>(
    reader: R,
    frame_bytes: usize,
    on_frame: impl FnMut(&[u8]) -> Result<(), String>,
) -> Result<u64, String> {
    let mut splitter = FrameSplitter::new(frame_bytes);
    split_stream(reader, &mut splitter, on_frame)?;
    splitter.read_keyframe_frames().map_err(|e| e.message())
}

#[test]
fn rect_within_bounds_is_ok() {
    let rect = LogoRect {
        x: 10,
        y: 20,
        w: 30,
        h: 40,
    };
    assert!(rect.validate(640, 360).is_ok());
    let exact = LogoRect {
        x: 610,
        y: 320,
        w: 30,
        h: 40,
    };
    assert!(exact.validate(640, 360).is_ok());
}

#[test]
fn rect_extending_past_width_is_an_error() {
    let rect = LogoRect {
        x: 620,
        y: 0,
        w: 30,
        h: 40,
    };
    let err = rect.validate(640, 360).unwrap_err();
    let message = err.message();
    assert!(message.contains("映像範囲の外"), "message={message}");
    assert!(message.contains("640"), "message={message}");
}

#[test]
fn rect_extending_past_height_is_an_error() {
    let rect = LogoRect {
        x: 0,
        y: 340,
        w: 30,
        h: 40,
    };
    assert!(rect.validate(640, 360).is_err());
}

#[test]
fn rect_with_overflowing_coordinates_is_an_error_not_a_panic() {
    let rect = LogoRect {
        x: u32::MAX,
        y: 0,
        w: 30,
        h: 40,
    };
    assert!(rect.validate(640, 360).is_err());
}

#[test]
fn zero_sized_rect_is_an_error() {
    let rect = LogoRect {
        x: 0,
        y: 0,
        w: 0,
        h: 10,
    };
    let err = rect.validate(640, 360).unwrap_err();
    assert!(err.message().contains("幅・高さは正の値"));
}

#[test]
fn reads_expected_number_of_whole_frames() {
    let data: Vec<u8> = (0..12).collect();
    let mut collected: Vec<Vec<u8>> = Vec::new();
    let n = read_frames(Cursor::new(data), 4, 3, |frame| {
        collected.push(frame.to_vec());
        Ok(())
    })
    .expect("フレーム数が一致するので成功するはず");

    assert_eq!(n, 3);
    assert_eq!(collected.len(), 3);
    assert_eq!(collected[0], vec![0, 1, 2, 3]);
    assert_eq!(collected[1], vec![4, 5, 6, 7]);
    assert_eq!(collected[2], vec![8, 9, 10, 11]);
}

#[test]
fn mismatched_expected_frame_count_is_an_error() {
    let data: Vec<u8> = (0..12).collect();
    let err = read_frames(Cursor::new(data), 4, 4, |_| Ok(()))
        .expect_err("期待値(4)と実際(3)が食い違うのでエラーになるはず");
    let message = err;
    assert!(message.contains("CM"), "message={message}");
    assert!(message.contains('3'), "message={message}");
    assert!(message.contains('4'), "message={message}");
}

#[test]
fn actual_frame_count_exceeding_expected_is_an_error() {
    let data: Vec<u8> = (0..16).collect();
    let mut called = 0;
    let err = read_frames(Cursor::new(data), 4, 3, |_| {
        called += 1;
        Ok(())
    })
    .expect_err("期待値(3)と実際(4)が食い違うのでエラーになるはず");
    assert_eq!(called, 4, "4フレームぶんon_frameが呼ばれるはず");
    let message = err;
    assert!(message.contains('4'), "message={message}");
    assert!(message.contains('3'), "message={message}");
}

#[test]
fn trailing_partial_bytes_is_an_error() {
    let data: Vec<u8> = (0..14).collect();
    let err = read_frames(Cursor::new(data), 4, 3, |_| Ok(()))
        .expect_err("端数バイトで終わるのでエラーになるはず");
    assert!(err.contains("倍数"), "message={err}");
}

#[test]
fn empty_input_with_zero_expected_frames_succeeds() {
    let n = read_frames(Cursor::new(Vec::<u8>::new()), 4, 0, |_| Ok(()))
        .expect("0フレーム期待に対して空入力は成功するはず");
    assert_eq!(n, 0);
}

#[test]
fn on_frame_error_propagates_immediately() {
    let data: Vec<u8> = (0..12).collect();
    let mut calls = 0;
    let err = read_frames(Cursor::new(data), 4, 3, |_| {
        calls += 1;
        Err("callback error".to_string())
    })
    .expect_err("on_frame のエラーが伝播するはず");
    assert_eq!(calls, 1, "1回目のフレームでエラーになったら以降は読まない");
    assert!(err.contains("callback error"));
}

#[test]
fn keyframe_reads_expected_number_of_whole_frames_without_expected_count() {
    let data: Vec<u8> = (0..12).collect();
    let mut collected: Vec<Vec<u8>> = Vec::new();
    let n = read_keyframe_frames(Cursor::new(data), 4, |frame| {
        collected.push(frame.to_vec());
        Ok(())
    })
    .expect("キーフレームが3枚読めるはず");

    assert_eq!(n, 3);
    assert_eq!(collected.len(), 3);
    assert_eq!(collected[0], vec![0, 1, 2, 3]);
    assert_eq!(collected[1], vec![4, 5, 6, 7]);
    assert_eq!(collected[2], vec![8, 9, 10, 11]);
}

#[test]
fn keyframe_trailing_partial_bytes_is_an_error() {
    let data: Vec<u8> = (0..14).collect();
    let err = read_keyframe_frames(Cursor::new(data), 4, |_| Ok(()))
        .expect_err("端数バイトで終わるのでエラーになるはず");
    assert!(err.contains("倍数"), "message={err}");
}

#[test]
fn keyframe_zero_frames_is_an_error() {
    let err = read_keyframe_frames(Cursor::new(Vec::<u8>::new()), 4, |_| Ok(()))
        .expect_err("0フレームはエラーになるはず（黙って『ロゴ無し』誤判定を防ぐ）");
    assert!(
        err.contains("1枚も読み取れません"),
        "message={err}"
    );
}

#[test]
fn keyframe_on_frame_error_propagates_immediately() {
    let data: Vec<u8> = (0..12).collect();
    let mut calls = 0;
    let err = read_keyframe_frames(Cursor::new(data), 4, |_| {
        calls += 1;
        Err("callback error".to_string())
    })
    .expect_err("on_frame のエラーが伝播するはず");
    assert_eq!(calls, 1, "1回目のフレームでエラーになったら以降は読まない");
    assert!(err.contains("callback error"));
}

#[test]
fn keyframe_zero_width_is_rejected_before_spawning_ffmpeg() {
    let err = VideoSize { width: 0, height: 360 }
        .frame_bytes()
        .expect_err("width=0 は ffmpeg を起動する前に弾かれるはず");
    assert!(
        err.message().contains("映像サイズが不正"),
        "message={}",
        err.message()
    );
}

#[test]
fn keyframe_zero_height_is_rejected_before_spawning_ffmpeg() {
    let err = VideoSize { width: 640, height: 0 }
        .frame_bytes()
        .expect_err("height=0 は ffmpeg を起動する前に弾かれるはず");
    assert!(
        err.message().contains("映像サイズが不正"),
        "message={}",
        err.message()
    );
}

#[test]
fn frames_are_put_together_from_pieces_of_any_size() {
    let mut splitter = FrameSplitter::new(4);
    assert_eq!(splitter.wanted(), 4);
    assert_eq!(splitter.accept(&[1]), None);
    assert_eq!(splitter.wanted(), 3);
    assert_eq!(splitter.accept(&[2, 3]), None);
    assert_eq!(splitter.accept(&[4]), Some(vec![1, 2, 3, 4]));
    assert_eq!(splitter.wanted(), 4);
    assert_eq!(splitter.read_luma_frames(), Ok(1));
    assert_eq!(splitter.accept(&[5, 6, 7]), None);
    assert_eq!(
        splitter.read_luma_frames(),
        Err(FrameStreamError::PartialFrame { frame_bytes: 4, frame_count: 1, partial: 3 })
    );
}

#[test]
fn stream_errors_are_told_apart() {
    let mut splitter = FrameSplitter::new(1);
    assert_eq!(splitter.read_keyframe_frames(), Err(FrameStreamError::NoKeyframe));
    splitter.accept(&[9]);
    assert_eq!(
        splitter.read_frames(2),
        Err(FrameStreamError::FrameCount { frame_count: 1, expected: 2 })
    );
    assert_eq!(splitter.read_frames(1), Ok(1));
    assert_eq!(splitter.read_keyframe_frames(), Ok(1));
}

#[test]
fn rect_errors_name_what_is_wrong() {
    let rect = LogoRect { x: 620, y: 0, w: 30, h: 40 };
    assert_eq!(
        rect.validate(640, 360),
        Err(RectError::OutsideVideo { rect, width: 640, height: 360 })
    );
    assert_eq!(
        LogoRect { x: 0, y: 0, w: 0, h: 10 }.validate(640, 360),
        Err(RectError::ZeroSize { w: 0, h: 10 })
    );
    assert_eq!(rect.frame_bytes(), 1200);
    assert_eq!(VideoSize { width: 640, height: 360 }.frame_bytes(), Ok(230_400));
    assert_eq!(
        VideoSize { width: 0, height: 360 }.frame_bytes(),
        Err(RectError::ZeroVideo { width: 0, height: 360 })
    );
}

#[test]
fn range_request_seeks_before_the_input_and_limits_after_it() {
    let args = build_ffmpeg_args(&FrameRequest::Range {
        rect: LogoRect { x: 4, y: 6, w: 8, h: 10 },
        seek: "1.5".to_string(),
        count: 7,
    });
    let before: Vec<&str> = args.before_input.iter().map(|s| s.as_str()).collect();
    let after: Vec<&str> = args.after_input.iter().map(|s| s.as_str()).collect();
    let ss = before.iter().position(|a| *a == "-ss").expect("seeks before the input");
    assert_eq!(before[ss + 1], "1.5");
    let count = after.iter().position(|a| *a == "-frames:v").expect("limits the frames");
    assert_eq!(after[count + 1], "7");
    assert!(after.iter().any(|a| a.contains("crop=8:10:4:6")));
}

#[test]
fn end_of_stream_decides_what_is_reported() {
    assert!(!ReadEnd::Complete.needs_kill());
    assert!(!ReadEnd::Protocol.needs_kill());
    assert!(ReadEnd::Callback.needs_kill());
    assert_eq!(ReadEnd::Complete.finish_stream(true), StreamOutcome::Frames);
    assert_eq!(ReadEnd::Complete.finish_stream(false), StreamOutcome::WaitError);
    assert_eq!(ReadEnd::Protocol.finish_stream(true), StreamOutcome::ProtocolError);
    assert_eq!(ReadEnd::Protocol.finish_stream(false), StreamOutcome::WaitError);
    assert_eq!(ReadEnd::Callback.finish_stream(false), StreamOutcome::CallbackError);
}
