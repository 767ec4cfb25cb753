use tachikaze::logo::hier::touched_frame_ranges_from_logoframe_text;
use tachikaze::logo::interval::{
    build_text, fill_unknown_runs, instant_label, pad, windows, write_result, Judgement,
    LogoIntervals,
};

/// A number in the order of the floating-point numbers.
fn key(v: f32) -> i32 {
    let bits = v.to_bits() as i32;
    if bits < 0 {
        !(bits & 0x7fff_ffff)
    } else {
        bits
    }
}

fn raw_score(corr0: f32, corr1: f32) -> f32 {
    corr0.max(0.0) + corr1.min(0.0)
}

fn intervals(scores: &[(f32, f32)], fps: f64) -> LogoIntervals {
    let frames_per_sec = fps.round() as u32;
    let raw: Vec<f32> = scores.iter().map(|&(c0, c1)| raw_score(c0, c1)).collect();
    let mut averages: Vec<f32> = Vec::new();
    if !raw.is_empty() {
        let w = windows(frames_per_sec);
        let padded = pad(&raw, w.front_pad, w.back_pad);
        for i in 0..raw.len() {
            let idx = w.front_pad + i;
            let sum: f32 = padded[idx - w.half_avg..=idx + w.half_avg].iter().sum();
            averages.push(sum / (w.half_avg * 2 + 1) as f32);
        }
    }
    let raw_keys: Vec<i32> = raw.iter().map(|&v| key(v)).collect();
    let avg_keys: Vec<i32> = averages.iter().map(|&v| key(v)).collect();
    write_result(&raw_keys, &avg_keys, frames_per_sec)
}

#[test]
fn instant_label_matches_write_result_threshold() {
    assert_eq!(instant_label(key(1.0)), Some(true));
    assert_eq!(instant_label(key(-1.0)), Some(false));
    assert_eq!(instant_label(key(0.0)), None);
    assert_eq!(instant_label(key(0.19)), None);
    assert_eq!(instant_label(key(0.21)), Some(true));
}

fn scores_from_raw(raw: &[f32]) -> Vec<(f32, f32)> {
    raw.iter()
        .map(|&v| if v >= 0.0 { (v, 0.0) } else { (0.0, v) })
        .collect()
}

fn count_markers(text: &str, marker: &str) -> usize {
    text.lines()
        .filter(|line| line.split_whitespace().nth(1) == Some(marker))
        .count()
}

#[test]
fn honpen_cm_honpen_gives_two_intervals() {
    let mut raw = vec![1.0f32; 1000];
    raw.extend(vec![-1.0f32; 450]);
    raw.extend(vec![1.0f32; 1000]);
    let scores = scores_from_raw(&raw);

    let result = intervals(&scores, 30.0);

    assert_eq!(
        result.text,
        [
            "     0 S 0 ALL      0      0\n",
            "   999 E 0 ALL    999    999\n",
            "  1450 S 0 ALL   1450   1450\n",
            "  2449 E 0 ALL   2449   2449\n",
        ]
        .concat()
    );
    assert_eq!(result.total_frames, 2450);
    assert_eq!(result.logo_frames, 1994);
}

#[test]
fn brief_dip_inside_honpen_does_not_split_the_interval() {
    let mut raw = vec![1.0f32; 1000];
    for v in raw.iter_mut().skip(500).take(6) {
        *v = -1.0;
    }
    let scores = scores_from_raw(&raw);

    let result = intervals(&scores, 30.0);

    assert_eq!(
        count_markers(&result.text, "S"),
        1,
        "落ち込みで区間が分断されず1本のままのはず: {}",
        result.text
    );
    assert_eq!(count_markers(&result.text, "E"), 1);
}

#[test]
fn all_no_logo_gives_empty_text() {
    let raw = vec![-1.0f32; 100];
    let scores = scores_from_raw(&raw);

    let result = intervals(&scores, 30.0);

    assert_eq!(result.text, "");
    assert_eq!(result.logo_frames, 0);
    assert_eq!(result.total_frames, 100);
}

#[test]
fn one_line_matches_logoframe_format_exactly() {
    let raw = [-1.0, -1.0, -1.0, 1.0, 1.0, 1.0, 1.0, -1.0, -1.0, -1.0];
    let scores = scores_from_raw(&raw);

    let result = intervals(&scores, 2.0);

    assert_eq!(
        result.text,
        "     3 S 0 ALL      3      3\n     6 E 0 ALL      6      6\n"
    );
    assert_eq!(result.logo_frames, 2);
    assert_eq!(result.total_frames, 10);
}

#[test]
fn empty_scores_give_empty_result() {
    let result = intervals(&[], 30.0);
    assert_eq!(
        result,
        LogoIntervals {
            text: String::new(),
            logo_frames: 0,
            total_frames: 0,
        }
    );
}

struct Xorshift64(u64);

impl Xorshift64 {
    fn next_f32(&mut self) -> f32 {
        self.0 ^= self.0 << 13;
        self.0 ^= self.0 >> 7;
        self.0 ^= self.0 << 17;
        (self.0 >> 11) as f32 / (1u64 << 53) as f32
    }
}

fn parse_line(line: &str) -> (i64, i64, i64) {
    let fields: Vec<&str> = line.split_whitespace().collect();
    let best = fields[0].parse().unwrap();
    let left = fields[4].parse().unwrap();
    let right = fields[5].parse().unwrap();
    (best, left, right)
}

#[test]
fn build_text_never_emits_reversed_ranges() {
    let mut rng = Xorshift64(0x2545_F491_4F6C_DD1D);
    let n = 200;

    for case in 0..5000u32 {
        let raw: Vec<f32> = (0..n).map(|_| rng.next_f32() * 4.0 - 2.0).collect();
        let scores = scores_from_raw(&raw);

        let result = intervals(&scores, 5.0);

        let lines: Vec<&str> = result.text.lines().collect();
        assert_eq!(
            lines.len() % 2,
            0,
            "case {case}: S行とE行が対になっていない: {}",
            result.text
        );
        for pair in lines.chunks(2) {
            let (s_line, e_line) = (pair[0], pair[1]);
            assert!(
                s_line.split_whitespace().nth(1) == Some("S")
                    && e_line.split_whitespace().nth(1) == Some("E"),
                "case {case}: S行・E行の順序がおかしい: {s_line} / {e_line}"
            );
            let (_, s_left, s_right) = parse_line(s_line);
            let (_, e_left, e_right) = parse_line(e_line);
            assert!(s_left <= s_right, "case {case}: S行の範囲が反転: {s_line}");
            assert!(
                e_left <= e_right,
                "case {case}: E行の範囲が反転(実バグの再発): {e_line}"
            );
            assert!(
                s_right <= e_right,
                "case {case}: S行がE行より後: {s_line} / {e_line}"
            );
        }
    }
}

#[test]
fn windows_cover_a_second_and_half_a_second() {
    let w = windows(30);
    assert_eq!((w.half_avg, w.half_median), (15, 8));
    assert_eq!((w.front_pad, w.back_pad), (15, 16));
    assert_eq!(pad(&[1, 2], 2, 3), vec![1, 1, 1, 2, 2, 2, 2]);
}

#[test]
fn unknown_frames_take_the_judgement_around_them() {
    let (no, unknown, has) = (Judgement::NoLogo, Judgement::Unknown, Judgement::HasLogo);
    let mut inside = vec![has, unknown, unknown, has];
    fill_unknown_runs(&mut inside);
    assert_eq!(inside, vec![has, has, has, has]);
    let mut between = vec![has, unknown, no, unknown];
    fill_unknown_runs(&mut between);
    assert_eq!(between, vec![has, unknown, no, no]);
}

#[test]
fn no_judged_frame_gives_no_text() {
    assert_eq!(build_text(&vec![Judgement::NoLogo; 3], &vec![key(-1.0); 3]), "");
    assert_eq!(Judgement::from_threshold(key(-0.5), key(0.5)), Judgement::NoLogo);
    assert_eq!(Judgement::from_threshold(key(0.49), key(0.5)), Judgement::Unknown);
    assert_eq!(Judgement::from_threshold(key(0.5), key(0.5)), Judgement::HasLogo);
    assert_eq!(Judgement::HasLogo.agreed(Judgement::NoLogo), Judgement::Unknown);
    assert_eq!(Judgement::HasLogo.agreed(Judgement::HasLogo), Judgement::HasLogo);
}

#[test]
fn written_intervals_read_back_as_frame_ranges() {
    let mut raw = vec![1.0f32; 1000];
    raw.extend(vec![-1.0f32; 450]);
    raw.extend(vec![1.0f32; 1000]);
    let result = intervals(&scores_from_raw(&raw), 30.0);
    assert_eq!(
        touched_frame_ranges_from_logoframe_text(&result.text),
        vec![(0, 0), (999, 999), (1450, 1450), (2449, 2449)]
    );
}
