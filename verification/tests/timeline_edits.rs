use humla_core::edits::{apply_group_text, synthesize_orphan_entries, StoredEntry, StoredLine};
use humla_core::labels::single_piece;
use humla_core::repair::{comparable_words, orphaned_prefix, projection_covers};
use humla_core::speakers::{combine_with_snapshot, session_speaker_offset};
use humla_core::timeline::{
    backfill_end_ms, group_values_to_transcript, timeline_records, TimelineEntry, TimelineRecord,
    TimelineWord,
};
use humla_core::transcript::build_labelled_transcript;
use humla_core::types::{ChunkRecord, ChunkSource, ChunkWord, LabelledPiece};

fn mic(start_ms: u64, text: &str) -> ChunkRecord {
    ChunkRecord {
        source: ChunkSource::Mic,
        start_ms,
        text: text.to_string(),
        words: Vec::new(),
        detected_language: None,
    }
}

fn sys(start_ms: u64, text: &str) -> ChunkRecord {
    ChunkRecord {
        source: ChunkSource::Sys,
        start_ms,
        text: text.to_string(),
        words: Vec::new(),
        detected_language: None,
    }
}

fn sys_with_words(start_ms: u64, words: Vec<(&str, u64, u64)>) -> ChunkRecord {
    let text = words.iter().map(|(t, _, _)| *t).collect::<Vec<_>>().join(" ");
    ChunkRecord {
        source: ChunkSource::Sys,
        start_ms,
        text,
        words: words
            .into_iter()
            .map(|(t, s, e)| ChunkWord { text: t.to_string(), start_ms: s, end_ms: e })
            .collect(),
        detected_language: None,
    }
}

fn whole_chunk_pieces<F: Fn(&ChunkRecord) -> Option<String>>(
    labeller: F,
) -> impl Fn(&ChunkRecord) -> Vec<LabelledPiece> {
    move |c: &ChunkRecord| single_piece(c, labeller(c))
}

fn record_pairs(rs: &[TimelineRecord]) -> Vec<(String, String)> {
    rs.iter().map(|r| (r.label.clone(), r.text.clone())).collect()
}

fn entry_pairs(es: &[StoredEntry]) -> Vec<(String, String)> {
    es.iter().map(|e| (e.label.clone(), e.text.clone())).collect()
}

fn line_pairs(ls: &[StoredLine]) -> Vec<(String, String)> {
    ls.iter()
        .map(|l| match l {
            StoredLine::Entry(e) => (e.label.clone(), e.text.clone()),
            StoredLine::NotAnObject => (String::new(), String::new()),
        })
        .collect()
}

/// A timeline line as it sits on disk: bounds, label, text, word timings.
fn tl(start_ms: u64, end_ms: u64, label: &str, text: &str) -> StoredLine {
    let words = text
        .split_whitespace()
        .enumerate()
        .map(|(i, w)| TimelineWord {
            text: w.to_string(),
            start_ms: start_ms + i as u64 * 100,
            end_ms: start_ms + i as u64 * 100 + 100,
        })
        .collect();
    StoredLine::Entry(StoredEntry {
        start_ms,
        end_ms,
        label: label.to_string(),
        text: text.to_string(),
        words,
        source: None,
    })
}

fn entry(l: &StoredLine) -> &StoredEntry {
    match l {
        StoredLine::Entry(e) => e,
        StoredLine::NotAnObject => panic!("not an entry"),
    }
}

fn text_of(l: &StoredLine) -> &str {
    entry(l).text.as_str()
}

fn word_count(l: &StoredLine) -> usize {
    entry(l).words.len()
}

fn timeline_entry(start_ms: u64, end_ms: u64, text: &str) -> TimelineEntry {
    TimelineEntry {
        start_ms,
        end_ms,
        label: "Speaker 1".to_string(),
        text: text.to_string(),
        words: Vec::new(),
        session_id: "s".to_string(),
        session_index: 0,
        chunk_idx: 0,
    }
}

#[test]
fn orphaned_snapshot_text_survives_in_the_timeline() {
    let snapshot = "we kicked off by agreeing the deadline slips a week";
    let chunks = vec![
        sys(30, "so where did we land on the freeze."),
        mic(4_000, "pushing it to the following Friday."),
    ];
    let labeller = |c: &ChunkRecord| match c.source {
        ChunkSource::Mic => Some("You".to_string()),
        ChunkSource::Sys => Some("Speaker 1".to_string()),
    };
    let split = whole_chunk_pieces(labeller);

    let combined = combine_with_snapshot(snapshot, &build_labelled_transcript(&chunks, &split));
    let session_two = timeline_records(&chunks, &split, session_speaker_offset(snapshot));

    let projection = group_values_to_transcript(&record_pairs(&session_two));
    let orphans = orphaned_prefix(&combined, &projection).expect("the snapshot is orphaned today");
    let orphan_refs: Vec<&str> = orphans.iter().map(String::as_str).collect();
    let mut pairs = entry_pairs(&synthesize_orphan_entries(&orphan_refs));
    pairs.extend(record_pairs(&session_two));

    let shown: String = pairs.iter().map(|(_, t)| t.as_str()).collect::<Vec<_>>().join(" ");
    for line in combined.lines().filter(|l| !l.trim().is_empty()) {
        let words = line.split_once(": ").map_or(line, |(_, rest)| rest);
        assert!(shown.contains(words), "transcript line is in no timeline entry: {words:?}");
    }

    let repaired_projection = group_values_to_transcript(&pairs);
    assert_eq!(comparable_words(&repaired_projection), comparable_words(&combined));
    assert!(
        projection_covers(&combined, &repaired_projection)
            && orphaned_prefix(&combined, &repaired_projection).is_none(),
        "repair must be idempotent",
    );
}

#[test]
fn diarize_skipped_timeline_carries_text_and_timings_with_no_label() {
    let chunks = vec![
        sys_with_words(0, vec![("where", 0, 400), ("now", 400, 900)]),
        sys_with_words(4_000, vec![("friday", 0, 500)]),
    ];
    let split = |c: &ChunkRecord| single_piece(c, None);
    let values = timeline_records(&chunks, &split, 0);
    assert_eq!(values.len(), 2);
    for v in &values {
        assert_eq!(v.label, "");
    }
    assert_eq!(values[0].text, "where now");
    assert_eq!(values[1].text, "friday");
    assert_eq!(values[0].words[1].text, "now");
    assert_eq!(values[0].words[1].start_ms, 400);
    assert_eq!(values[1].words[0].start_ms, 4_000);
    assert_eq!(values[0].end_ms, 900);
    assert_eq!(group_values_to_transcript(&record_pairs(&values)), "where now friday");
}

#[test]
fn synthesized_entries_keep_labels_and_carry_no_timings() {
    let lines = vec!["Michael: hei der", "unlabelled tail"];
    let values = synthesize_orphan_entries(&lines);
    assert_eq!(values.len(), 2);
    assert_eq!(values[0].label, "Michael");
    assert_eq!(values[0].text, "hei der");
    assert_eq!(values[1].label, "");
    assert_eq!(values[1].text, "unlabelled tail");
    assert!(values[0].end_ms <= values[1].start_ms);
    for v in &values {
        assert_eq!(v.words.len(), 0);
    }
    assert_eq!(
        comparable_words(&group_values_to_transcript(&entry_pairs(&values))),
        comparable_words("Michael: hei der\nunlabelled tail"),
    );
}

#[test]
fn synthesized_entries_sit_in_consecutive_five_second_slots() {
    let values = synthesize_orphan_entries(&["a", "b", "c"]);
    let bounds: Vec<(u64, u64)> = values.iter().map(|v| (v.start_ms, v.end_ms)).collect();
    assert_eq!(bounds, vec![(0, 5_000), (5_000, 10_000), (10_000, 15_000)]);
    assert!(values.iter().all(|v| v.source.is_none()));
}

#[test]
fn apply_group_text_writes_the_lowest_index_and_clears_the_rest() {
    let mut entries = vec![
        tl(0, 1_000, "Michael", "so where did we"),
        tl(1_000, 2_000, "Michael", "land on the freeze"),
        tl(2_000, 3_000, "Hege", "next Friday"),
    ];
    apply_group_text(&mut entries, &[0, 1], "so where did we land on the freeze?").unwrap();

    assert_eq!(text_of(&entries[0]), "so where did we land on the freeze?");
    assert_eq!(text_of(&entries[1]), "");
    assert_eq!(text_of(&entries[2]), "next Friday");
    assert_eq!(entries.len(), 3);
}

#[test]
fn apply_group_text_drops_word_timings_but_keeps_bounds() {
    let mut entries = vec![
        tl(0, 1_000, "Michael", "so where did we"),
        tl(1_000, 2_500, "Michael", "land on the freeze"),
    ];
    apply_group_text(&mut entries, &[0, 1], "rewritten").unwrap();

    assert_eq!(word_count(&entries[0]), 0);
    assert_eq!(word_count(&entries[1]), 0);
    assert_eq!(entry(&entries[0]).start_ms, 0);
    assert_eq!(entry(&entries[0]).end_ms, 1_000);
    assert_eq!(entry(&entries[1]).start_ms, 1_000);
    assert_eq!(entry(&entries[1]).end_ms, 2_500);
    assert_eq!(entry(&entries[0]).label, "Michael");
    assert_eq!(entry(&entries[1]).label, "Michael");
}

#[test]
fn apply_group_text_rejects_out_of_bounds_without_mutating() {
    let mut entries = vec![tl(0, 1_000, "Michael", "original")];
    let err = apply_group_text(&mut entries, &[0, 4], "rewritten").unwrap_err();
    assert!(err.contains("out of bounds"), "unexpected error: {err}");
    assert_eq!(text_of(&entries[0]), "original");
    assert_eq!(word_count(&entries[0]), 1);
}

#[test]
fn apply_group_text_names_the_offending_index_and_the_timeline_size() {
    let mut entries = vec![tl(0, 1_000, "Michael", "original"), StoredLine::NotAnObject];
    assert_eq!(
        apply_group_text(&mut entries, &[0, 4], "x").unwrap_err(),
        "chunk_idx 4 out of bounds (timeline has 2 entries)"
    );
    assert_eq!(
        apply_group_text(&mut entries, &[1, 4], "x").unwrap_err(),
        "timeline entry 1 is not an object"
    );
    assert_eq!(apply_group_text(&mut entries, &[], "x").unwrap_err(), "no chunk indices given");
    assert_eq!(text_of(&entries[0]), "original");
}

#[test]
fn apply_group_text_rejects_a_non_object_entry() {
    let mut entries = vec![StoredLine::NotAnObject];
    assert!(apply_group_text(&mut entries, &[0], "rewritten").is_err());
}

#[test]
fn apply_group_text_rejects_an_empty_index_list() {
    let mut entries = vec![tl(0, 1_000, "Michael", "original")];
    assert!(apply_group_text(&mut entries, &[], "rewritten").is_err());
    assert_eq!(text_of(&entries[0]), "original");
}

#[test]
fn apply_group_text_lands_in_the_lowest_index_whatever_the_order() {
    let mut entries = vec![
        tl(0, 1_000, "Michael", "a"),
        tl(1_000, 2_000, "Michael", "b"),
        tl(2_000, 3_000, "Michael", "c"),
    ];
    apply_group_text(&mut entries, &[2, 1, 2], "new words").unwrap();
    assert_eq!(text_of(&entries[0]), "a");
    assert_eq!(text_of(&entries[1]), "new words");
    assert_eq!(text_of(&entries[2]), "");
    assert_eq!(word_count(&entries[0]), 1);
}

#[test]
fn transcript_rederived_after_an_edit_matches_the_timeline() {
    let mut entries = vec![
        tl(0, 1_000, "Michael", "so where did we"),
        tl(1_000, 2_000, "Michael", "land on the freeze"),
        tl(2_000, 3_000, "Hege", "next Friday"),
    ];
    apply_group_text(&mut entries, &[0, 1], "so where did we land on the freeze?").unwrap();

    assert_eq!(
        group_values_to_transcript(&line_pairs(&entries)),
        "Michael: so where did we land on the freeze?\nHege: next Friday"
    );
}

#[test]
fn apply_group_text_trims_and_collapses_the_replacement() {
    let mut entries = vec![tl(0, 1_000, "Michael", "original")];
    apply_group_text(&mut entries, &[0], "  padded on both sides \n").unwrap();
    assert_eq!(text_of(&entries[0]), "padded on both sides");

    apply_group_text(&mut entries, &[0], "first line\nsecond line").unwrap();
    assert_eq!(text_of(&entries[0]), "first line second line");
}

#[test]
fn serialize_timeline_applies_label_offset() {
    let chunks = vec![sys(0, "alpha beta gamma."), sys(5_000, "delta epsilon zeta.")];
    let labeller = |c: &ChunkRecord| single_piece(c, Some("Speaker 1".to_string()));
    let out = timeline_records(&chunks, &labeller, 2);
    let labels: Vec<String> = out.iter().map(|r| r.label.clone()).collect();
    assert!(!labels.is_empty());
    assert!(labels.iter().all(|l| l == "Speaker 3"), "labels = {labels:?}");
}

#[test]
fn serialize_timeline_leaves_you_and_zero_offset_untouched() {
    let chunks = vec![mic(0, "just me talking.")];
    let labeller = |c: &ChunkRecord| single_piece(c, Some("You".to_string()));
    let out = timeline_records(&chunks, &labeller, 4);
    assert_eq!(out.len(), 1);
    assert_eq!(out[0].label, "You");
    assert_eq!(out[0].source, ChunkSource::Mic);
}

#[test]
fn timeline_records_estimate_an_end_without_word_timings() {
    let chunks = vec![sys(0, "one two three four"), sys(800, "five."), sys(10_000, "six.")];
    let labeller = |c: &ChunkRecord| single_piece(c, Some("Speaker 1".to_string()));
    let out = timeline_records(&chunks, &labeller, 0);
    let bounds: Vec<(u64, u64)> = out.iter().map(|r| (r.start_ms, r.end_ms)).collect();
    assert_eq!(bounds, vec![(0, 800), (800, 10_000), (10_000, 11_000)]);
}

#[test]
fn group_values_to_transcript_merges_same_label_runs() {
    let vals: Vec<(String, String)> = [
        ("Speaker 1", "hello"),
        ("Speaker 1", "there"),
        ("Speaker 2", "hi back"),
    ]
    .iter()
    .map(|(l, t)| (l.to_string(), t.to_string()))
    .collect();
    assert_eq!(group_values_to_transcript(&vals), "Speaker 1: hello there\nSpeaker 2: hi back");
}

#[test]
fn group_values_to_transcript_skips_blank_entries_and_prefixes_no_empty_label() {
    let vals: Vec<(String, String)> = [("", "where now"), ("Hege", "  "), ("", "friday"), ("Hege", "yes")]
        .iter()
        .map(|(l, t)| (l.to_string(), t.to_string()))
        .collect();
    assert_eq!(group_values_to_transcript(&vals), "where now friday\nHege: yes");
}

#[test]
fn backfill_end_ms_uses_the_next_later_start_or_five_seconds() {
    let mut entries = vec![
        timeline_entry(1_000, 0, "a"),
        timeline_entry(1_000, 1_000, "b"),
        timeline_entry(3_000, 4_000, "c"),
        timeline_entry(7_000, 0, "d"),
    ];
    backfill_end_ms(&mut entries);
    let ends: Vec<u64> = entries.iter().map(|e| e.end_ms).collect();
    assert_eq!(ends, vec![3_000, 3_000, 4_000, 12_000]);
}
