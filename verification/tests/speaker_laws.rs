use humla_core::diagnostics::{bridge_changes, word_speaker_ids};
use humla_core::labels::build_hybrid_labels;
use humla_core::speakers::{
    combine_with_snapshot, max_speaker_number, offset_speaker_numbers, session_speaker_offset,
};
use humla_core::types::{ChunkRecord, ChunkSource, ChunkWord, LabelledPiece, Segment};

fn seg(start_ms: u64, end_ms: u64, sid: &str) -> Segment {
    Segment { start_ms, end_ms, speaker_id: sid.to_string() }
}

fn chunk(source: ChunkSource, start_ms: u64, words: Vec<(&str, u64, u64)>) -> ChunkRecord {
    let text = words.iter().map(|(t, _, _)| *t).collect::<Vec<_>>().join(" ");
    ChunkRecord {
        source,
        start_ms,
        text,
        words: words
            .into_iter()
            .map(|(t, s, e)| ChunkWord { text: t.to_string(), start_ms: s, end_ms: e })
            .collect(),
        detected_language: None,
    }
}

fn labelled(label: Option<&str>, text: &str) -> LabelledPiece {
    LabelledPiece { label: label.map(str::to_string), text: text.to_string(), words: Vec::new() }
}

#[test]
fn max_speaker_number_needs_the_colon() {
    assert_eq!(max_speaker_number("Michael: hi\nSpeaker 5 was great"), 0);
    assert_eq!(max_speaker_number("Speaker 5 was great\nSpeaker 2: ok"), 2);
    assert_eq!(max_speaker_number("  Speaker 7: indented"), 7);
}

#[test]
fn session_offset_ignores_lines_without_the_colon() {
    assert_eq!(session_speaker_offset("Michael: hi\nSpeaker 5 was great"), 0);
    assert_eq!(
        combine_with_snapshot("Speaker 5 was great", "Speaker 1: hi"),
        "Speaker 5 was great\nSpeaker 1: hi"
    );
}

#[test]
fn two_offsets_equal_one_offset_by_the_sum() {
    let text = "Speaker 1: hello\nMichael: hi\nSpeaker 2: so, Speaker 1 said\n\nSpeaker 10: bye";
    let twice = offset_speaker_numbers(&offset_speaker_numbers(text, 2), 3);
    let once = offset_speaker_numbers(text, 5);
    assert_eq!(twice, once);
    assert_eq!(once, "Speaker 6: hello\nMichael: hi\nSpeaker 7: so, Speaker 1 said\n\nSpeaker 15: bye");
}

#[test]
fn hybrid_labels_are_distinct_and_empty_streams_get_none() {
    let chunks = vec![
        chunk(ChunkSource::Mic, 0, vec![]),
        chunk(ChunkSource::Sys, 1_000, vec![]),
        chunk(ChunkSource::Mic, 2_000, vec![]),
        chunk(ChunkSource::Sys, 3_000, vec![]),
    ];
    let mic = vec![seg(0, 1_500, "A"), seg(1_500, 2_500, "B")];
    let sys = vec![seg(0, 2_000, "X"), seg(2_000, 4_000, "Y")];
    let labels = build_hybrid_labels(&chunks, &mic, &sys);
    let mut all = labels.mic.values();
    all.extend(labels.sys.values());
    let mut sorted = all.clone();
    sorted.sort();
    sorted.dedup();
    assert_eq!(sorted.len(), all.len());
    assert_eq!(all.len(), 4);
    assert_eq!(labels.next_free, 5);

    let no_sys = build_hybrid_labels(&chunks, &mic, &[]);
    assert!(no_sys.sys.is_empty());
    assert_eq!(no_sys.mic.len(), 2);
    let no_mic = build_hybrid_labels(&chunks, &[], &sys);
    assert!(no_mic.mic.is_empty());
    assert_eq!(no_mic.sys.values(), vec!["Speaker 1".to_string(), "Speaker 2".to_string()]);
}

#[test]
fn word_speaker_ids_look_each_word_up_in_its_own_stream() {
    let chunks = vec![
        chunk(ChunkSource::Mic, 1_000, vec![("hi", 0, 400), ("there", 2_000, 2_400)]),
        chunk(ChunkSource::Sys, 0, vec![("yes", 100, 300)]),
        chunk(ChunkSource::Mic, 5_000, vec![]),
    ];
    let mic = vec![seg(0, 2_000, "m0"), seg(2_000, 9_000, "m1")];
    let sys = vec![seg(0, 10_000, "s0")];
    let ids = word_speaker_ids(&chunks, &mic, &sys);
    assert_eq!(ids.len(), 3);
    assert_eq!(ids[0], vec![Some("m0".to_string()), Some("m1".to_string())]);
    assert_eq!(ids[1], vec![Some("s0".to_string())]);
    assert!(ids[2].is_empty());

    let no_sys = word_speaker_ids(&chunks, &mic, &[]);
    assert_eq!(no_sys[1], vec![None]);
}

#[test]
fn bridge_changes_lists_relabelled_pieces_in_order() {
    let pre = vec![
        labelled(Some("Speaker 1"), "a"),
        labelled(Some("Speaker 2"), "b"),
        labelled(None, "c"),
        labelled(Some("Speaker 1"), "d"),
    ];
    let post = vec![
        labelled(Some("Speaker 1"), "a"),
        labelled(Some("Speaker 1"), "b"),
        labelled(Some("Speaker 3"), "c"),
        labelled(Some("Speaker 1"), "d"),
    ];
    let changes = bridge_changes(&pre, &post);
    assert_eq!(
        changes,
        vec![
            (1, Some("Speaker 2".to_string()), Some("Speaker 1".to_string())),
            (2, None, Some("Speaker 3".to_string())),
        ]
    );
    assert!(bridge_changes(&pre, &post[..3]).is_empty());
    assert!(bridge_changes(&pre, &pre).is_empty());
}
