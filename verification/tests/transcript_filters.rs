use humla_core::filters::{is_likely_hallucination, is_repetition_collapse, strip_attribution_tail};
use humla_core::labels::single_piece;
use humla_core::transcript::{
    build_labelled_transcript, dedup_mic_against_sys, normalize_tokens, token_containment,
};
use humla_core::types::{ChunkRecord, ChunkSource, LabelledPiece};

fn mic(start_ms: u64, text: &str) -> ChunkRecord {
    ChunkRecord {
        source: ChunkSource::Mic,
        start_ms,
        text: text.to_string(),
        words: Vec::new(),
        detected_language: None,
    }
}

fn sys(start_ms: u64, text: &str) -> ChunkRecord {
    ChunkRecord {
        source: ChunkSource::Sys,
        start_ms,
        text: text.to_string(),
        words: Vec::new(),
        detected_language: None,
    }
}

fn whole_chunk_pieces<F: Fn(&ChunkRecord) -> Option<String>>(
    labeller: F,
) -> impl Fn(&ChunkRecord) -> Vec<LabelledPiece> {
    move |c: &ChunkRecord| single_piece(c, labeller(c))
}

fn you_and_speaker_one(c: &ChunkRecord) -> Option<String> {
    match c.source {
        ChunkSource::Mic => Some("You".to_string()),
        ChunkSource::Sys => Some("Speaker 1".to_string()),
    }
}

fn strings(words: &[&str]) -> Vec<String> {
    words.iter().map(|s| s.to_string()).collect()
}

fn ratio(r: (usize, usize)) -> f32 {
    if r.1 == 0 {
        0.0
    } else {
        r.0 as f32 / r.1 as f32
    }
}

#[test]
fn dedup_drops_mic_chunk_echoing_overlapping_sys() {
    let chunks = vec![
        sys(0, "we should ship the migration on Friday before the freeze"),
        mic(200, "we should ship the migration on Friday"),
        sys(8000, "agreed sounds good to me"),
    ];
    let out = build_labelled_transcript(&chunks, &whole_chunk_pieces(you_and_speaker_one));
    assert_eq!(
        out,
        "Speaker 1: we should ship the migration on Friday before the freeze agreed sounds good to me"
    );
}

#[test]
fn dedup_keeps_mic_chunk_with_distinct_user_speech() {
    let chunks = vec![
        sys(0, "we should ship the migration on Friday before the freeze"),
        mic(200, "actually I want to push back on that timeline"),
    ];
    let out = build_labelled_transcript(&chunks, &whole_chunk_pieces(you_and_speaker_one));
    assert!(out.contains("actually I want to push back"));
    assert!(out.contains("Speaker 1: we should ship"));
}

#[test]
fn dedup_keeps_short_mic_acks_even_if_words_appear_in_sys() {
    let chunks = vec![
        sys(0, "So the ship date is yeah ok confirmed for Friday."),
        mic(500, "yeah"),
        mic(1000, "ok"),
    ];
    let out = build_labelled_transcript(&chunks, &whole_chunk_pieces(you_and_speaker_one));
    assert!(out.contains("You: yeah ok"));
}

#[test]
fn dedup_keeps_mic_when_sys_window_is_far_away() {
    let chunks = vec![
        mic(0, "The proposal is to extend the deadline to Friday."),
        sys(30_000, "The proposal is to extend the deadline to Friday."),
    ];
    let out = build_labelled_transcript(&chunks, &whole_chunk_pieces(you_and_speaker_one));
    assert!(out.contains("You: The proposal is to extend"));
    assert!(out.contains("Speaker 1: The proposal is to extend"));
}

#[test]
fn dedup_drops_all_mic_when_sys_mirrors_them() {
    let chunks = vec![
        mic(0, "this is the first thing I am saying about politics"),
        sys(20, "this is the first thing I am saying about politics"),
        mic(3000, "and now the second thing about media coverage"),
        sys(3020, "and now the second thing about media coverage"),
        mic(6000, "third point on commentary today"),
        sys(6020, "third point on commentary today"),
        mic(9000, "fourth and final remark on the topic"),
        sys(9020, "fourth and final remark on the topic"),
    ];
    let out = build_labelled_transcript(&chunks, &whole_chunk_pieces(you_and_speaker_one));
    assert!(!out.contains("You:"));
    assert!(out.contains("Speaker 1: this is the first thing"));
}

#[test]
fn dedup_noop_when_only_mic_chunks_present() {
    let chunks = vec![
        mic(0, "this is the first thing I am saying"),
        mic(3000, "and now the second thing"),
    ];
    let labeller = |c: &ChunkRecord| match c.source {
        ChunkSource::Mic => Some("Speaker 1".to_string()),
        ChunkSource::Sys => Some("Speaker 2".to_string()),
    };
    let out = build_labelled_transcript(&chunks, &whole_chunk_pieces(labeller));
    assert_eq!(
        out,
        "Speaker 1: this is the first thing I am saying and now the second thing"
    );
}

#[test]
fn dedup_returns_the_surviving_chunks_in_input_order() {
    let chunks = vec![
        sys(0, "we should ship the migration on Friday before the freeze"),
        mic(200, "we should ship the migration on Friday"),
        mic(400, "hold on"),
    ];
    let kept = dedup_mic_against_sys(&chunks);
    let texts: Vec<&str> = kept.iter().map(|c| c.text.as_str()).collect();
    assert_eq!(texts, vec!["we should ship the migration on Friday before the freeze", "hold on"]);
}

#[test]
fn normalize_tokens_lowercases_and_strips_punctuation() {
    assert_eq!(normalize_tokens("Hello, World! It's me."), strings(&["hello", "world", "it", "me"]));
    assert!(normalize_tokens("... !!").is_empty());
}

#[test]
fn token_containment_perfect_subset() {
    let a = strings(&["ship", "the", "migration"]);
    let b = strings(&["we", "should", "ship", "the", "migration", "on", "friday"]);
    assert!((ratio(token_containment(&a, &b)) - 1.0).abs() < 1e-6);
}

#[test]
fn token_containment_no_overlap() {
    let a = strings(&["completely", "different", "words"]);
    let b = strings(&["nothing", "in", "common"]);
    assert!(ratio(token_containment(&a, &b)) < 1e-6);
}

#[test]
fn token_containment_counts_distinct_tokens_of_the_smaller_list() {
    let a = strings(&["ship", "ship", "it", "now"]);
    let b = strings(&["ship", "it", "later", "today", "maybe"]);
    assert_eq!(token_containment(&a, &b), (2, 3));
    assert_eq!(token_containment(&Vec::new(), &b), (0, 0));
}

#[test]
fn collapse_detects_long_phrase_loop() {
    let s = "Er det en bok? ".repeat(20);
    assert!(is_repetition_collapse(&s));
}

#[test]
fn collapse_detects_single_word_loop() {
    let s = "yes yes yes yes yes yes yes yes";
    assert!(is_repetition_collapse(s));
}

#[test]
fn collapse_passes_normal_speech() {
    let s = "Vi har en avtale i morgen klokken ti om prosjektet vi diskuterte forrige uke.";
    assert!(!is_repetition_collapse(s));
}

#[test]
fn collapse_passes_natural_three_rep_short() {
    let s = "ja ja ja det stemmer mhm";
    assert!(!is_repetition_collapse(s));
}

#[test]
fn collapse_detects_partial_loop_dominating_chunk() {
    let s = "noe annet skjedde okay test test test test okay noe annet";
    assert!(is_repetition_collapse(s));
}

#[test]
fn collapse_handles_punctuation_and_case() {
    let s = "Er det en bok? er det en bok! Er Det En Bok? er det en bok.";
    assert!(is_repetition_collapse(s));
}

#[test]
fn collapse_needs_more_than_a_handful_of_words() {
    assert!(!is_repetition_collapse("yes yes yes"));
    assert!(!is_repetition_collapse(""));
}

#[test]
fn drops_punctuation_only() {
    assert!(is_likely_hallucination(".", "no"));
    assert!(is_likely_hallucination("...", "no"));
    assert!(is_likely_hallucination(" . ", "no"));
    assert!(is_likely_hallucination("***", "en"));
}

#[test]
fn drops_norwegian_silence_greetings() {
    assert!(is_likely_hallucination("Hei.", "no"));
    assert!(is_likely_hallucination("Hei!", "no"));
    assert!(is_likely_hallucination("Takk!", "no"));
    assert!(is_likely_hallucination("Hallo.", "no"));
    assert!(is_likely_hallucination("Ha det.", "no"));
}

#[test]
fn drops_english_silence_greetings() {
    assert!(is_likely_hallucination("Hi.", "en"));
    assert!(is_likely_hallucination("Hello!", "en"));
    assert!(is_likely_hallucination("Thanks!", "en"));
    assert!(is_likely_hallucination("Thank you.", "en"));
}

#[test]
fn keeps_real_one_word_answers() {
    assert!(!is_likely_hallucination("Yes.", "en"));
    assert!(!is_likely_hallucination("No.", "en"));
    assert!(!is_likely_hallucination("Ja.", "no"));
    assert!(!is_likely_hallucination("Nei.", "no"));
    assert!(!is_likely_hallucination("OK", "en"));
}

#[test]
fn keeps_real_speech_containing_greeting_words() {
    assert!(!is_likely_hallucination("Hei, hvordan går det med deg i dag?", "no"));
    assert!(!is_likely_hallucination(
        "I just wanted to say thanks for the help yesterday.",
        "en"
    ));
}

#[test]
fn drops_caption_attribution_inside_real_speech() {
    assert!(is_likely_hallucination(
        "And that was the meeting. Subtitles by Amara.org community.",
        "en"
    ));
}

#[test]
fn strip_attribution_tail_keeps_the_speech_before_it() {
    let stripped = strip_attribution_tail("And that was the meeting. Subtitles by Amara.org community.");
    assert!("And that was the meeting. Subtitles by Amara.org community.".starts_with(stripped.as_str()));
    assert!(!stripped.contains("Amara"));
    assert_eq!(strip_attribution_tail("plain speech"), "plain speech");
}
