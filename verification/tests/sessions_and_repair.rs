use humla_core::notes::{title_from_filename, title_from_stem};
use humla_core::renames::custom_name_map;
use humla_core::repair::{
    comparable_words, orphaned_prefix, plan_repair, projection_covers, repair_session_id, split_label, RepairPlan,
};
use humla_core::sessions::{
    concat_offsets_ms, max_speaker_in_timeline, session_mode, session_streams, session_unifiable,
    spans_overlap_ms, LabelSpan, SessionMode,
};
use humla_core::speakers::{
    combine_with_snapshot, is_generated_label, offset_speaker_label, offset_speaker_numbers, session_speaker_offset,
};
use humla_core::types::{ChunkRecord, ChunkSource};
use std::path::Path;

fn mic(start_ms: u64, text: &str) -> ChunkRecord {
    ChunkRecord {
        source: ChunkSource::Mic,
        start_ms,
        text: text.to_string(),
        words: Vec::new(),
        detected_language: None,
    }
}

fn sys(start_ms: u64, text: &str) -> ChunkRecord {
    ChunkRecord {
        source: ChunkSource::Sys,
        start_ms,
        text: text.to_string(),
        words: Vec::new(),
        detected_language: None,
    }
}

fn span(start_ms: u64, end_ms: u64, label: &str, source: Option<ChunkSource>) -> LabelSpan {
    LabelSpan { start_ms, end_ms, label: label.to_string(), source }
}

fn owned(v: &[&str]) -> Vec<String> {
    v.iter().map(|s| s.to_string()).collect()
}

fn labelled(label: Option<&str>, rest: &str) -> (Option<String>, String) {
    (label.map(str::to_string), rest.to_string())
}

fn is_safe_session_id(id: &str) -> bool {
    !id.is_empty() && id.len() <= 64 && id.chars().all(|c| c.is_ascii_alphanumeric() || c == '-')
}

#[test]
fn offset_speaker_label_bumps_numbered_only() {
    assert_eq!(offset_speaker_label("Speaker 1", 3), "Speaker 4");
    assert_eq!(offset_speaker_label("Speaker 12", 2), "Speaker 14");
    assert_eq!(offset_speaker_label("Speaker 1", 0), "Speaker 1");
    assert_eq!(offset_speaker_label("You", 5), "You");
    assert_eq!(offset_speaker_label("Michael", 5), "Michael");
    assert_eq!(offset_speaker_label("", 5), "");
}

#[test]
fn session_speaker_offset_matches_combine_offset() {
    let snap = "Speaker 1: a\nSpeaker 2: b";
    assert_eq!(session_speaker_offset(snap), 2);
    assert_eq!(session_speaker_offset(""), 0);
    assert_eq!(session_speaker_offset("You: hi\nMichael: yo"), 0);
}

#[test]
fn session_streams_reflects_present_sources() {
    assert_eq!(session_streams(&[mic(0, "a")]), vec!["mic"]);
    assert_eq!(session_streams(&[sys(0, "a")]), vec!["sys"]);
    assert_eq!(session_streams(&[mic(0, "a"), sys(100, "b")]), vec!["mic", "sys"]);
    assert!(session_streams(&[]).is_empty());
}

#[test]
fn concat_offsets_accumulate_from_sample_counts() {
    assert_eq!(concat_offsets_ms(&[16_000, 8_000, 4_000]), vec![0, 1_000, 1_500]);
    assert_eq!(concat_offsets_ms(&[]), Vec::<u64>::new());
    assert_eq!(concat_offsets_ms(&[500]), vec![0]);
}

#[test]
fn session_mode_reflects_chunk_sources() {
    assert_eq!(session_mode(&[mic(0, "a")]), Some(SessionMode::MicOnly));
    assert_eq!(session_mode(&[sys(0, "a")]), Some(SessionMode::SysOnly));
    assert_eq!(session_mode(&[mic(0, "a"), sys(1, "b")]), Some(SessionMode::Hybrid));
    assert_eq!(session_mode(&[]), None);
}

#[test]
fn session_unifiable_requires_every_diarized_stream() {
    assert!(session_unifiable(SessionMode::MicOnly, true, false));
    assert!(!session_unifiable(SessionMode::MicOnly, false, true));
    assert!(session_unifiable(SessionMode::SysOnly, false, true));
    assert!(!session_unifiable(SessionMode::SysOnly, true, false));
    assert!(session_unifiable(SessionMode::Hybrid, true, true));
    assert!(!session_unifiable(SessionMode::Hybrid, false, true));
    assert!(!session_unifiable(SessionMode::Hybrid, true, false));
}

#[test]
fn generated_label_detection() {
    assert!(is_generated_label("Speaker 1"));
    assert!(is_generated_label("Speaker 12"));
    assert!(is_generated_label("You"));
    assert!(is_generated_label(""));
    assert!(!is_generated_label("Michael"));
    assert!(!is_generated_label("Speaker"));
    assert!(!is_generated_label("Speaker x"));
    assert!(!is_generated_label("Speaker 1 (guest)"));
}

#[test]
fn empty_labels_never_gain_names() {
    let news = vec![vec![span(0, 2_000, "", Some(ChunkSource::Mic))]];
    let olds = vec![vec![span(0, 2_000, "Michael", Some(ChunkSource::Mic))]];
    let (map, notices) = custom_name_map(&news, &olds);
    assert!(map.is_empty());
    assert!(notices.is_empty());
}

#[test]
fn custom_name_carries_onto_the_overlapping_generated_label() {
    let news = vec![vec![span(0, 2_000, "Speaker 1", Some(ChunkSource::Sys))]];
    let olds = vec![vec![span(0, 2_000, "Michael", Some(ChunkSource::Sys))]];
    let (map, notices) = custom_name_map(&news, &olds);
    assert_eq!(map.get("Speaker 1"), Some(&"Michael".to_string()));
    assert!(notices.is_empty());
}

#[test]
fn spans_overlap_is_the_shared_stretch() {
    let a = span(0, 2_000, "Speaker 1", None);
    let b = span(1_500, 4_000, "Michael", None);
    let c = span(2_000, 3_000, "Hege", None);
    assert_eq!(spans_overlap_ms(&a, &b), 500);
    assert_eq!(spans_overlap_ms(&b, &a), 500);
    assert_eq!(spans_overlap_ms(&a, &c), 0);
}

#[test]
fn max_speaker_in_timeline_reads_exact_labels() {
    let labels = owned(&["Speaker 2", "Michael", "You"]);
    assert_eq!(max_speaker_in_timeline(&labels), 2);
    assert_eq!(max_speaker_in_timeline(&[]), 0);
}

#[test]
fn split_label_matches_the_readers_parse() {
    assert_eq!(split_label("Speaker 1: hello"), labelled(Some("Speaker 1"), "hello"));
    assert_eq!(split_label("  Michael: hi there"), labelled(Some("Michael"), "hi there"));
    assert_eq!(split_label("just words"), labelled(None, "just words"));
    let long = format!("{}: x", "a".repeat(41));
    assert_eq!(split_label(&long).0, None);
    assert_eq!(split_label("10:30: the standup").0, None);
}

#[test]
fn comparable_words_ignores_labels_case_and_punctuation() {
    assert_eq!(
        comparable_words("Speaker 1: Hello, world!"),
        comparable_words("Michael: hello world"),
    );
    assert_eq!(comparable_words("Speaker 2: a b"), vec!["a", "b"]);
}

#[test]
fn projection_covers_is_directional() {
    let t = "Speaker 1: a b c\nYou: d e";
    assert!(projection_covers(t, t));
    assert!(projection_covers(t, "Michael: a b c d e"));
    assert!(projection_covers(t, "Speaker 1: a b c\nYou: d e f g"));
    assert!(!projection_covers(t, "Speaker 1: a b c"));
    assert!(!projection_covers("A: one\nB: two\nC: three", "A: one\nC: three"));
}

#[test]
fn orphaned_prefix_returns_the_uncovered_leading_lines() {
    let transcript = "we kicked off by agreeing the deadline slips\nSpeaker 1: so where did we land\nYou: the following Friday";
    let projection = "Speaker 1: so where did we land\nYou: the following Friday";
    assert_eq!(
        orphaned_prefix(transcript, projection),
        Some(owned(&["we kicked off by agreeing the deadline slips"])),
    );
}

#[test]
fn orphaned_prefix_is_none_when_the_projection_covers_the_transcript() {
    let t = "Speaker 1: a b c\nYou: d e";
    assert_eq!(orphaned_prefix(t, t), None);
    assert_eq!(orphaned_prefix(t, "Michael: a b c d e"), None);
}

#[test]
fn orphaned_prefix_is_none_when_the_gap_is_not_a_clean_prefix() {
    assert_eq!(orphaned_prefix("A: one\nB: two\nC: three", "A: one\nC: three"), None);
    assert_eq!(orphaned_prefix("A: one two three", "A: three"), None);
    assert_eq!(orphaned_prefix("A: one", ""), None);
}

#[test]
fn the_repair_session_id_is_the_same_on_every_device() {
    let lines = vec!["we kicked off by agreeing the deadline slips", "a second line"];
    assert_eq!(repair_session_id("note-a", &lines), repair_session_id("note-a", &lines));
    let padded = vec!["  we kicked off by agreeing the deadline slips  ", "a second line"];
    assert_eq!(repair_session_id("note-a", &lines), repair_session_id("note-a", &padded));
    assert_ne!(repair_session_id("note-a", &lines), repair_session_id("note-b", &lines));
    assert_ne!(repair_session_id("note-a", &lines), repair_session_id("note-a", &lines[..1]));
    let id = repair_session_id("note-a", &lines);
    assert!(id.len() <= 64 && id.chars().all(|c| c.is_ascii_alphanumeric() || c == '-'));
    assert!(is_safe_session_id(&id));
}

#[test]
fn repair_session_id_is_a_name_based_uuid() {
    let id = repair_session_id("note-a", &["one line"]);
    assert_eq!(id.len(), 36);
    assert_eq!(id.as_bytes()[14], b'5');
    assert_ne!(id, repair_session_id("note-a", &["another line"]));
}

#[test]
fn title_from_filename_strips_extension() {
    assert_eq!(title_from_filename(Path::new("/tmp/meeting.m4a")), "meeting");
    assert_eq!(title_from_filename(Path::new("Voice Memo 3.mp3")), "Voice Memo 3");
}

#[test]
fn title_from_filename_keeps_stem_verbatim() {
    assert_eq!(title_from_filename(Path::new("standup_2026-07-09.wav")), "standup_2026-07-09");
}

#[test]
fn title_from_filename_handles_no_extension() {
    assert_eq!(title_from_filename(Path::new("/x/recording")), "recording");
}

#[test]
fn title_from_filename_falls_back_when_empty() {
    assert_eq!(title_from_filename(Path::new("")), "Imported audio");
    assert_eq!(title_from_filename(Path::new("/")), "Imported audio");
}

#[test]
fn title_from_filename_trims_whitespace() {
    assert_eq!(title_from_filename(Path::new("  spaced  .mp3")), "spaced");
}

#[test]
fn title_from_stem_falls_back_on_blank_or_missing_stems() {
    assert_eq!(title_from_stem(Some("  weekly sync ")), "weekly sync");
    assert_eq!(title_from_stem(Some("   ")), "Imported audio");
    assert_eq!(title_from_stem(None), "Imported audio");
}

#[test]
fn the_repair_plan_follows_coverage_and_the_orphan_shape() {
    let t = "Speaker 1: a b c\nYou: d e";
    assert!(matches!(plan_repair(t, t), RepairPlan::NothingToDo));
    assert!(matches!(plan_repair("  ", "Speaker 1: a"), RepairPlan::NothingToDo));
    assert!(matches!(plan_repair(t, ""), RepairPlan::NothingToDo));
    assert!(matches!(
        plan_repair("A: one\nB: two\nC: three", "A: one\nC: three"),
        RepairPlan::CannotRepair
    ));
    match plan_repair("intro words here\nSpeaker 1: so where", "Speaker 1: so where") {
        RepairPlan::Repair(lines) => assert_eq!(lines, owned(&["intro words here"])),
        other => panic!("expected a repair, got {other:?}"),
    }
}

#[test]
fn transcript_lines_and_timeline_labels_shift_alike() {
    for (label, text) in [("Speaker 2", "hi there"), ("Speaker 12", "a: b"), ("You", "me"), ("Michael", "x")] {
        let line = format!("{label}: {text}");
        assert_eq!(
            offset_speaker_numbers(&line, 3),
            format!("{}: {text}", offset_speaker_label(label, 3))
        );
    }
    let snapshot = "Speaker 1: a\nSpeaker 2: b";
    let k = session_speaker_offset(snapshot);
    assert_eq!(
        combine_with_snapshot(snapshot, "Speaker 1: c"),
        format!("{snapshot}\n{}: c", offset_speaker_label("Speaker 1", k))
    );
}
