use humla_core::capture::{post_stop_plan, DiarizeOutcome, LabelPlan};
use humla_core::cloud::{session_upload_wanted, sessions_synced, sync_wait_step, SyncWait};
use humla_core::labels::{split_by_labels, LabelMap};
use humla_core::pieces::absorb_text_continuation_chains;
use humla_core::sessions::SessionMode;
use humla_core::types::{ChunkRecord, ChunkSource, ChunkWord, LabelledPiece, Segment};

fn piece(label: Option<&str>, text: &str) -> LabelledPiece {
    let words = text
        .split_whitespace()
        .enumerate()
        .map(|(i, w)| ChunkWord {
            text: w.to_string(),
            start_ms: (i as u64) * 250,
            end_ms: (i as u64) * 250 + 200,
        })
        .collect();
    LabelledPiece { label: label.map(str::to_string), text: text.to_string(), words }
}

#[test]
fn absorb_keeps_unlabelled_pieces_unlabelled() {
    let mut pieces = vec![
        piece(Some("Speaker 1"), "we could"),
        piece(None, "maybe"),
        piece(Some("Speaker 2"), "try it"),
    ];
    absorb_text_continuation_chains(&mut pieces);
    let labels: Vec<_> = pieces.iter().map(|p| p.label.clone()).collect();
    assert_eq!(
        labels,
        vec![Some("Speaker 1".to_string()), None, Some("Speaker 1".to_string())]
    );
    absorb_text_continuation_chains(&mut pieces);
    let again: Vec<_> = pieces.iter().map(|p| p.label.clone()).collect();
    assert_eq!(labels, again);
}

#[test]
fn post_stop_plan_without_model_leaves_labels_off() {
    let (plan, notices) =
        post_stop_plan(false, SessionMode::Hybrid, &DiarizeOutcome::Segments, &DiarizeOutcome::Segments);
    assert_eq!(plan, LabelPlan::Unlabelled);
    assert_eq!(notices.len(), 1);
    assert!(notices[0].starts_with("Speaker diarization model isn't downloaded"));
}

#[test]
fn post_stop_plan_follows_the_one_stream_of_a_single_stream_take() {
    let (plan, notices) =
        post_stop_plan(true, SessionMode::MicOnly, &DiarizeOutcome::NoSegments, &DiarizeOutcome::Segments);
    assert_eq!(plan, LabelPlan::SingleSpeaker);
    assert_eq!(
        notices,
        vec!["Diarization found no distinct speakers; all speech grouped under Speaker 1.".to_string()]
    );
    let (plan, notices) =
        post_stop_plan(true, SessionMode::SysOnly, &DiarizeOutcome::NoAudio, &DiarizeOutcome::Segments);
    assert_eq!(plan, LabelPlan::BySegments);
    assert!(notices.is_empty());
}

#[test]
fn post_stop_plan_reports_a_hybrid_take_that_found_nobody() {
    let (plan, notices) =
        post_stop_plan(true, SessionMode::Hybrid, &DiarizeOutcome::NoAudio, &DiarizeOutcome::NoAudio);
    assert_eq!(plan, LabelPlan::Hybrid);
    assert_eq!(
        notices,
        vec![
            "Diarization unavailable for the remote side; remote speech grouped under one speaker.".to_string(),
            "Diarization found no distinct speakers; speech grouped by audio source.".to_string(),
        ]
    );
    let (_, notices) =
        post_stop_plan(true, SessionMode::Hybrid, &DiarizeOutcome::Segments, &DiarizeOutcome::NoSegments);
    assert!(notices.is_empty());
}

#[test]
fn session_upload_is_for_workspace_notes_with_audio_sync_on() {
    assert!(session_upload_wanted(None, "ws1"));
    assert!(session_upload_wanted(Some("true"), "ws1"));
    assert!(!session_upload_wanted(Some("false"), "ws1"));
    assert!(!session_upload_wanted(None, ""));
}

#[test]
fn sessions_synced_needs_every_local_session() {
    let have = vec!["a".to_string(), "b".to_string()];
    assert!(sessions_synced(&["b".to_string()], &have));
    assert!(!sessions_synced(&["b".to_string(), "c".to_string()], &have));
    assert!(sessions_synced(&[], &[]));
}

#[test]
fn sync_wait_gives_up_after_twenty_looks() {
    assert_eq!(sync_wait_step(0, true), SyncWait::Proceed);
    assert_eq!(sync_wait_step(0, false), SyncWait::Retry);
    assert_eq!(sync_wait_step(18, false), SyncWait::Retry);
    assert_eq!(sync_wait_step(19, false), SyncWait::GiveUp);
}

#[test]
fn split_by_labels_keeps_every_word_in_order() {
    let words: Vec<ChunkWord> = [("one", 0, 400), ("two", 500, 900), ("three", 3_000, 3_400), ("four", 3_500, 3_900)]
        .iter()
        .map(|(t, a, b)| ChunkWord { text: t.to_string(), start_ms: *a, end_ms: *b })
        .collect();
    let c = ChunkRecord {
        source: ChunkSource::Mic,
        start_ms: 1_000,
        text: "one two three four".to_string(),
        words,
        detected_language: None,
    };
    let segs = vec![
        Segment { start_ms: 0, end_ms: 3_000, speaker_id: "a".to_string() },
        Segment { start_ms: 3_000, end_ms: 9_000, speaker_id: "b".to_string() },
    ];
    let labels = LabelMap {
        entries: vec![
            ("a".to_string(), "Speaker 1".to_string()),
            ("b".to_string(), "Speaker 2".to_string()),
        ],
    };
    let pieces = split_by_labels(&c, &segs, &labels);
    let texts: Vec<String> =
        pieces.iter().flat_map(|p| p.words.iter().map(|w| w.text.clone())).collect();
    assert_eq!(texts, vec!["one", "two", "three", "four"]);
    let labs: Vec<Option<String>> = pieces.iter().map(|p| p.label.clone()).collect();
    assert_eq!(labs, vec![Some("Speaker 1".to_string()), Some("Speaker 2".to_string())]);
    assert_eq!(pieces[0].words.len(), 2);
}
