use tachikaze::jls::JlsEntry;
use tachikaze::order::DisplayIdx;
use tachikaze::report::missed::{
    check_sections_ordered, detected_gap_lengths, find_missed_candidates, format_warning, known_cm_lengths,
    matching_known_length, MissedCandidate,
};
use tachikaze::trim::{TrimList, TrimRange};

/// Reads `Trim(first,last) ++ Trim(first,last) ...`, whose last frames are inclusive.
fn trim_list(text: &str) -> Option<TrimList> {
    let mut ranges = Vec::new();
    for part in text.split("++") {
        let inner = part.trim().strip_prefix("Trim(")?.strip_suffix(")")?;
        let (first, last) = inner.split_once(',')?;
        let first: u32 = first.trim().parse().ok()?;
        let last: u32 = last.trim().parse().ok()?;
        ranges.push(TrimRange { start: DisplayIdx(first), end: DisplayIdx(last + 1) });
    }
    TrimList::new(ranges)
}

fn second(frame: u32, fps: f64) -> u64 {
    (frame as f64 / fps).floor() as u64
}

fn entry(start: u32, end: u32, label: &str) -> JlsEntry {
    JlsEntry {
        start,
        end,
        duration_sec: 0,
        error_frames: 0,
        logo_sec: 0,
        label: label.to_string(),
    }
}

#[test]
fn detects_missed_block_matching_known_cm_length() {
    let trim_input = "Trim(0,53591) ++ Trim(57189,70974) ++ Trim(74571,86858) \
         ++ Trim(90455,99999)";
    let trim = trim_list(trim_input).expect("should parse");

    let jls_entries = vec![
        entry(0, 34201, ":L"),
        entry(34202, 37798, ":L"),
        entry(37799, 53591, ":L"),
        entry(53592, 57188, ":CM"),
        entry(57189, 70974, ":L"),
        entry(70975, 74570, ":CM"),
        entry(74571, 86858, ":L"),
        entry(86859, 90454, ":CM"),
        entry(90455, 99999, ":L"),
    ];

    let candidates = find_missed_candidates(&trim, &jls_entries);

    assert_eq!(candidates.len(), 1);
    assert_eq!(candidates[0].start, 34202);
    assert_eq!(candidates[0].end, 37798);
    assert_eq!(candidates[0].length_frames, 3597);
    assert!(
        candidates[0].matched_gap_length == 3596 || candidates[0].matched_gap_length == 3597
    );
}

#[test]
fn no_warning_when_only_one_gap_of_a_given_length_is_detected() {
    let trim_input = "Trim(0,34201) ++ Trim(37798,53591)";
    let trim = trim_list(trim_input).expect("should parse");

    let jls_entries = vec![entry(0, 34201, ":L"), entry(37798, 53591, ":L")];

    let candidates = find_missed_candidates(&trim, &jls_entries);
    assert!(candidates.is_empty());
}

#[test]
fn no_warning_when_cm_block_lengths_are_not_aligned() {
    let trim_input = "Trim(0,1000) ++ Trim(1500,3000) ++ Trim(4000,6000) ++ Trim(9000,10000)";
    let trim = trim_list(trim_input).expect("should parse");

    let jls_entries = vec![
        entry(0, 1000, ":L"),
        entry(1001, 1499, ":CM"),
        entry(1500, 3000, ":L"),
        entry(3001, 3999, ":CM"),
        entry(4000, 6000, ":L"),
        entry(6001, 6600, ":L"),
        entry(6601, 9000, ":L"),
        entry(9000, 10000, ":L"),
    ];

    let candidates = find_missed_candidates(&trim, &jls_entries);
    assert!(candidates.is_empty());
}

#[test]
fn format_warning_does_not_panic_and_includes_key_numbers() {
    let candidate = MissedCandidate {
        start: 34202,
        end: 37798,
        length_frames: 3597,
        matched_gap_length: 3596,
    };
    let message = format_warning(
        &candidate,
        second(candidate.start, 29.97),
        second(candidate.end, 29.97),
    );

    assert!(message.contains("34202"));
    assert!(message.contains("37798"));
    assert!(message.contains("3597"));
    assert!(message.contains("19:0"));
}

#[test]
fn warning_text_is_exact() {
    let candidate = MissedCandidate {
        start: 0,
        end: 119,
        length_frames: 120,
        matched_gap_length: 118,
    };
    assert_eq!(
        format_warning(&candidate, 0, 63),
        "CM 検出の見逃し候補: 0:00〜1:03 (0〜119, 120 フレーム, 検出済み CM ブロック長 118 \
         フレームと一致)。trim.avs でこの区間を保持区間から除外する場合、該当する \
         Trim(a,0) ++ Trim(120,b) のように 分割することを検討してください。"
    );
}

#[test]
fn known_lengths_are_the_least_of_each_repeated_group() {
    let trim = trim_list("Trim(0,99) ++ Trim(200,299) ++ Trim(403,499) ++ Trim(900,999)")
        .expect("should parse");
    let gaps = detected_gap_lengths(&trim);
    assert_eq!(gaps, vec![100, 103, 400]);
    assert_eq!(known_cm_lengths(&gaps), vec![100]);
    assert_eq!(known_cm_lengths(&[104, 100]), Vec::<u32>::new());
    assert_eq!(matching_known_length(103, &[100]), Some(100));
    assert_eq!(matching_known_length(104, &[100]), None);
    assert_eq!(matching_known_length(97, &[50, 100, 99]), Some(100));
}

#[test]
fn section_that_ends_before_it_starts_is_found() {
    let trim = trim_list("Trim(0,99)").expect("should parse");
    assert!(check_sections_ordered(&trim, &[entry(10, 20, ":L"), entry(200, 150, ":L")]));
    assert!(!check_sections_ordered(&trim, &[entry(20, 10, ":L")]));
}
