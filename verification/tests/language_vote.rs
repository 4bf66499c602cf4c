use humla_core::filters::majority_language;
use humla_core::types::{ChunkRecord, ChunkSource};

fn chunk(text: &str, lang: Option<&str>) -> ChunkRecord {
    ChunkRecord {
        source: ChunkSource::Mic,
        start_ms: 0,
        text: text.to_string(),
        words: Vec::new(),
        detected_language: lang.map(str::to_string),
    }
}

fn words(n: usize) -> String {
    vec!["ord"; n].join(" ")
}

#[test]
fn no_chunks_and_no_detections_both_decline() {
    assert_eq!(majority_language(&[]), None);
    assert_eq!(majority_language(&[chunk("hello there", None)]), None);
}

#[test]
fn unanimous_detection_wins() {
    let chunks = vec![chunk(&words(20), Some("en")), chunk(&words(30), Some("en"))];
    assert_eq!(majority_language(&chunks), Some("en".to_string()));
}

#[test]
fn a_short_stray_chunk_does_not_outvote_the_meeting() {
    let chunks = vec![
        chunk(&words(60), Some("en")),
        chunk(&words(40), Some("en")),
        chunk("mm", Some("no")),
        chunk("ja", Some("cy")),
    ];
    assert_eq!(majority_language(&chunks), Some("en".to_string()));
}

#[test]
fn many_tiny_chunks_lose_to_one_long_one() {
    let mut chunks = vec![chunk(&words(200), Some("en"))];
    for _ in 0..8 {
        chunks.push(chunk("hm", Some("no")));
    }
    assert_eq!(majority_language(&chunks), Some("en".to_string()));
}

#[test]
fn an_even_bilingual_split_declines_to_answer() {
    let chunks = vec![chunk(&words(50), Some("en")), chunk(&words(50), Some("no"))];
    assert_eq!(majority_language(&chunks), None);
}

#[test]
fn chunks_without_a_detection_are_ignored_not_counted() {
    let chunks = vec![chunk(&words(500), None), chunk(&words(10), Some("en"))];
    assert_eq!(majority_language(&chunks), Some("en".to_string()));
}

#[test]
fn a_bare_majority_below_the_threshold_declines() {
    let chunks = vec![chunk(&words(55), Some("en")), chunk(&words(45), Some("no"))];
    assert_eq!(majority_language(&chunks), None);
}

#[test]
fn exactly_three_fifths_of_the_vote_wins() {
    let chunks = vec![chunk(&words(60), Some("en")), chunk(&words(40), Some("no"))];
    assert_eq!(majority_language(&chunks), Some("en".to_string()));
}

#[test]
fn an_empty_detection_abstains_and_a_blank_chunk_weighs_one() {
    let chunks = vec![chunk(&words(10), Some("")), chunk("", Some("de"))];
    assert_eq!(majority_language(&chunks), Some("de".to_string()));
}
