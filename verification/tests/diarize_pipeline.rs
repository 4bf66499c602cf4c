use humla_core::filters::{drop_incidental_stream_hallucinations, is_timing_collapse};
use humla_core::hints::{distinct_speaker_count, hybrid_sys_hint, mic_hint_after_sys};
use humla_core::labels::{
    assign_speaker, build_display_map, build_hybrid_labels, single_piece, split_by_labels,
    split_by_segments, HybridLabels,
};
use humla_core::pieces::{
    absorb_text_continuation_chains, bridge_short_interjections, piece_ends_terminator,
    piece_starts_continuation,
};
use humla_core::speakers::{
    combine_with_snapshot, max_speaker_number, offset_speaker_numbers,
};
use humla_core::transcript::build_labelled_transcript;
use humla_core::types::{ChunkRecord, ChunkSource, ChunkWord, LabelledPiece, Segment};

fn seg(start_ms: u64, end_ms: u64, sid: &str) -> Segment {
    Segment { start_ms, end_ms, speaker_id: sid.to_string() }
}

fn mic(start_ms: u64, text: &str) -> ChunkRecord {
    ChunkRecord {
        source: ChunkSource::Mic,
        start_ms,
        text: text.to_string(),
        words: Vec::new(),
        detected_language: None,
    }
}

fn sys(start_ms: u64, text: &str) -> ChunkRecord {
    ChunkRecord {
        source: ChunkSource::Sys,
        start_ms,
        text: text.to_string(),
        words: Vec::new(),
        detected_language: None,
    }
}

fn sys_with_words(start_ms: u64, words: Vec<(&str, u64, u64)>) -> ChunkRecord {
    let text = words.iter().map(|(t, _, _)| *t).collect::<Vec<_>>().join(" ");
    ChunkRecord {
        source: ChunkSource::Sys,
        start_ms,
        text,
        words: words
            .into_iter()
            .map(|(t, s, e)| ChunkWord { text: t.to_string(), start_ms: s, end_ms: e })
            .collect(),
        detected_language: None,
    }
}

fn mic_with_words(start_ms: u64, words: Vec<(&str, u64, u64)>) -> ChunkRecord {
    let mut c = sys_with_words(start_ms, words);
    c.source = ChunkSource::Mic;
    c
}

fn whole_chunk_pieces<F: Fn(&ChunkRecord) -> Option<String>>(
    labeller: F,
) -> impl Fn(&ChunkRecord) -> Vec<LabelledPiece> {
    move |c: &ChunkRecord| single_piece(c, labeller(c))
}

fn mic_only_labeller(chunks: Vec<ChunkRecord>, segments: Vec<Segment>) -> String {
    let display_map = build_display_map(&chunks, &segments, ChunkSource::Mic);
    let pieces = whole_chunk_pieces(move |c: &ChunkRecord| {
        let sid = assign_speaker(c.start_ms, &segments)?;
        display_map.get(sid).map(|n| format!("Speaker {n}"))
    });
    build_labelled_transcript(&chunks, &pieces)
}

fn piece(label: Option<&str>, text: &str, words: bool) -> LabelledPiece {
    let word_vec = if words {
        text.split_whitespace()
            .enumerate()
            .map(|(i, w)| ChunkWord {
                text: w.to_string(),
                start_ms: (i as u64) * 250,
                end_ms: (i as u64) * 250 + 200,
            })
            .collect()
    } else {
        Vec::new()
    };
    LabelledPiece { label: label.map(str::to_string), text: text.to_string(), words: word_vec }
}

fn piece_with_span(label: Option<&str>, text: &str, start_ms: u64, end_ms: u64) -> LabelledPiece {
    let words: Vec<&str> = text.split_whitespace().collect();
    let n = words.len().max(1);
    let step = (end_ms - start_ms) / n as u64;
    let word_vec = words
        .iter()
        .enumerate()
        .map(|(i, w)| ChunkWord {
            text: (*w).to_string(),
            start_ms: start_ms + step * i as u64,
            end_ms: start_ms + step * (i as u64 + 1),
        })
        .collect();
    LabelledPiece { label: label.map(str::to_string), text: text.to_string(), words: word_vec }
}

fn hybrid_splitter(
    chunks: &[ChunkRecord],
    mic_segments: Vec<Segment>,
    sys_segments: Vec<Segment>,
) -> impl Fn(&ChunkRecord) -> Vec<LabelledPiece> + Send {
    let labels = build_hybrid_labels(chunks, &mic_segments, &sys_segments);
    let sys_fallback = format!("Speaker {}", labels.next_free);
    let HybridLabels { mic, sys, .. } = labels;
    move |c: &ChunkRecord| match c.source {
        ChunkSource::Mic if mic_segments.is_empty() => single_piece(c, Some("You".to_string())),
        ChunkSource::Mic => split_by_labels(c, &mic_segments, &mic),
        ChunkSource::Sys if sys_segments.is_empty() => single_piece(c, Some(sys_fallback.clone())),
        ChunkSource::Sys => split_by_labels(c, &sys_segments, &sys),
    }
}

#[test]
fn split_chunk_with_no_words_falls_back_to_whole_chunk() {
    let chunks = vec![sys(0, "hello world")];
    let segs = vec![seg(0, 10_000, "A")];
    let display_map = build_display_map(&chunks, &segs, ChunkSource::Sys);
    let pieces = split_by_segments(&chunks[0], &segs, &display_map);
    assert_eq!(pieces.len(), 1);
    assert_eq!(pieces[0].label.as_deref(), Some("Speaker 1"));
    assert_eq!(pieces[0].text, "hello world");
}

#[test]
fn split_chunk_keeps_single_speaker_as_one_piece() {
    let chunk = sys_with_words(10_000, vec![("hello", 0, 500), ("there", 500, 1000)]);
    let segs = vec![seg(0, 30_000, "A")];
    let display_map = build_display_map(std::slice::from_ref(&chunk), &segs, ChunkSource::Sys);
    let pieces = split_by_segments(&chunk, &segs, &display_map);
    assert_eq!(pieces.len(), 1);
    assert_eq!(pieces[0].label.as_deref(), Some("Speaker 1"));
    assert_eq!(pieces[0].text, "hello there");
}

#[test]
fn split_chunk_breaks_at_speaker_boundary_inside_chunk() {
    let chunk = sys_with_words(
        10_000,
        vec![("first", 0, 500), ("second", 500, 1000), ("third", 8000, 8500)],
    );
    let segs = vec![seg(10_000, 15_000, "A"), seg(15_000, 25_000, "B")];
    let display_map = build_display_map(std::slice::from_ref(&chunk), &segs, ChunkSource::Sys);
    let pieces = split_by_segments(&chunk, &segs, &display_map);
    assert_eq!(pieces.len(), 2);
    assert_eq!(pieces[0].label.as_deref(), Some("Speaker 1"));
    assert_eq!(pieces[0].text, "first second");
    assert_eq!(pieces[1].label.as_deref(), Some("Speaker 2"));
    assert_eq!(pieces[1].text, "third");
}

#[test]
fn split_chunk_handles_back_and_forth_within_chunk() {
    let chunk = sys_with_words(
        0,
        vec![
            ("you", 0, 200),
            ("had", 200, 400),
            ("the", 400, 600),
            ("mouth", 600, 900),
            ("I", 5000, 5100),
            ("bet", 5100, 5400),
            ("yes", 9000, 9300),
            ("I", 9300, 9400),
            ("did", 9400, 9700),
        ],
    );
    let segs = vec![seg(0, 4_500, "A"), seg(4_500, 8_500, "B"), seg(8_500, 12_000, "A")];
    let display_map = build_display_map(std::slice::from_ref(&chunk), &segs, ChunkSource::Sys);
    let pieces = split_by_segments(&chunk, &segs, &display_map);
    assert_eq!(pieces.len(), 3);
    assert_eq!(pieces[0].label.as_deref(), Some("Speaker 1"));
    assert_eq!(pieces[0].text, "you had the mouth");
    assert_eq!(pieces[1].label.as_deref(), Some("Speaker 2"));
    assert_eq!(pieces[1].text, "I bet");
    assert_eq!(pieces[2].label.as_deref(), Some("Speaker 1"));
    assert_eq!(pieces[2].text, "yes I did");
}

#[test]
fn bridge_absorbs_short_sandwiched_interjection() {
    let mut pieces = vec![
        piece(Some("Speaker 1"), "so what I was saying about", true),
        piece(Some("Speaker 2"), "yeah", true),
        piece(Some("Speaker 1"), "the migration plan", true),
    ];
    bridge_short_interjections(&mut pieces);
    assert_eq!(pieces[0].label.as_deref(), Some("Speaker 1"));
    assert_eq!(pieces[1].label.as_deref(), Some("Speaker 1"));
    assert_eq!(pieces[2].label.as_deref(), Some("Speaker 1"));
}

#[test]
fn bridge_keeps_long_reply_distinct() {
    let mut pieces = vec![
        piece(Some("Speaker 1"), "do you have time", true),
        piece(Some("Speaker 2"), "no I really do not have time", true),
        piece(Some("Speaker 1"), "ok let me try later", true),
    ];
    bridge_short_interjections(&mut pieces);
    assert_eq!(pieces[1].label.as_deref(), Some("Speaker 2"));
}

#[test]
fn bridge_keeps_short_but_slow_reply_distinct() {
    let mut pieces = vec![
        piece(Some("Speaker 1"), "what do you think", true),
        piece_with_span(Some("Speaker 2"), "no", 0, 4_000),
        piece(Some("Speaker 1"), "fair enough", true),
    ];
    bridge_short_interjections(&mut pieces);
    assert_eq!(pieces[1].label.as_deref(), Some("Speaker 2"));
}

#[test]
fn bridge_skips_pieces_without_word_timings() {
    let mut pieces = vec![
        piece(Some("Speaker 1"), "first turn", false),
        piece(Some("Speaker 2"), "second turn", false),
        piece(Some("Speaker 1"), "third turn", false),
    ];
    bridge_short_interjections(&mut pieces);
    assert_eq!(pieces[1].label.as_deref(), Some("Speaker 2"));
}

#[test]
fn bridge_does_not_fuse_distinct_neighbours() {
    let mut pieces = vec![
        piece(Some("Speaker 1"), "see you tomorrow", true),
        piece(Some("Speaker 2"), "ok", true),
        piece(Some("Speaker 3"), "bye both", true),
    ];
    bridge_short_interjections(&mut pieces);
    assert_eq!(pieces[1].label.as_deref(), Some("Speaker 2"));
}

#[test]
fn bridge_skips_first_and_last_pieces() {
    let mut pieces = vec![
        piece(Some("Speaker 2"), "hi", true),
        piece(Some("Speaker 1"), "hello there how are you doing", true),
        piece(Some("Speaker 2"), "ok", true),
    ];
    bridge_short_interjections(&mut pieces);
    assert_eq!(pieces[0].label.as_deref(), Some("Speaker 2"));
    assert_eq!(pieces[2].label.as_deref(), Some("Speaker 2"));
}

#[test]
fn bridge_looks_past_unlabelled_neighbours() {
    let mut pieces = vec![
        piece(Some("Speaker 1"), "we were saying", true),
        piece(None, "um", true),
        piece(Some("Speaker 2"), "right", true),
        piece(Some("Speaker 1"), "that the plan holds", true),
    ];
    bridge_short_interjections(&mut pieces);
    assert_eq!(pieces[1].label, None);
    assert_eq!(pieces[2].label.as_deref(), Some("Speaker 1"));
}

#[test]
fn continuation_chain_uses_surrounding_label_when_pre_and_post_agree() {
    let mut pieces = vec![
        piece(Some("Speaker 1"), "Tidligere noe annet.", true),
        piece(Some("Speaker 1"), "Men det jeg kunne", true),
        piece(
            Some("Speaker 3"),
            "gjort, var jo å endra det til å komme opp i en slags pop-opp",
            true,
        ),
        piece(Some("Speaker 1"), "Sånn som den legges i lesninga her.", true),
    ];
    absorb_text_continuation_chains(&mut pieces);
    assert_eq!(pieces[1].label.as_deref(), Some("Speaker 1"));
    assert_eq!(pieces[2].label.as_deref(), Some("Speaker 1"));
}

#[test]
fn continuation_chain_picks_longest_when_pre_and_post_disagree() {
    let mut pieces = vec![
        piece(Some("Speaker 3"), "Det er så mye rundt at vi så det ikke.", true),
        piece(Some("Speaker 2"), "Ja, jeg", true),
        piece(Some("Speaker 1"), "skjønner", true),
        piece(Some("Speaker 3"), "det. Men jeg så vi egentlig snakka om opprinnelig,", true),
        piece(Some("Speaker 2"), "altså, så det er ikke", true),
    ];
    absorb_text_continuation_chains(&mut pieces);
    assert_eq!(pieces[1].label.as_deref(), Some("Speaker 3"));
    assert_eq!(pieces[2].label.as_deref(), Some("Speaker 3"));
    assert_eq!(pieces[3].label.as_deref(), Some("Speaker 3"));
    assert_eq!(pieces[4].label.as_deref(), Some("Speaker 3"));
    assert_eq!(pieces[0].label.as_deref(), Some("Speaker 3"));
}

#[test]
fn continuation_chain_does_nothing_when_single_label() {
    let mut pieces = vec![
        piece(Some("Speaker 1"), "Men jeg syns det er rart at", true),
        piece(Some("Speaker 1"), "vi gjør det sånn.", true),
    ];
    let before: Vec<_> = pieces.iter().map(|p| p.label.clone()).collect();
    absorb_text_continuation_chains(&mut pieces);
    let after: Vec<_> = pieces.iter().map(|p| p.label.clone()).collect();
    assert_eq!(before, after);
}

#[test]
fn continuation_chain_breaks_at_sentence_terminator() {
    let mut pieces = vec![
        piece(Some("Speaker 1"), "End of one thought.", true),
        piece(Some("Speaker 2"), "starts another with lowercase.", true),
    ];
    absorb_text_continuation_chains(&mut pieces);
    assert_eq!(pieces[0].label.as_deref(), Some("Speaker 1"));
    assert_eq!(pieces[1].label.as_deref(), Some("Speaker 2"));
}

#[test]
fn continuation_chain_breaks_at_uppercase_start() {
    let mut pieces = vec![
        piece(Some("Speaker 1"), "He said", true),
        piece(Some("Speaker 2"), "Hello world.", true),
    ];
    absorb_text_continuation_chains(&mut pieces);
    assert_eq!(pieces[0].label.as_deref(), Some("Speaker 1"));
    assert_eq!(pieces[1].label.as_deref(), Some("Speaker 2"));
}

#[test]
fn continuation_chain_treats_trailing_ellipsis_as_unfinished() {
    let mut pieces = vec![
        piece(Some("Speaker 1"), "I was going to ...", true),
        piece(Some("Speaker 2"), "say something here.", true),
    ];
    absorb_text_continuation_chains(&mut pieces);
    assert_eq!(pieces[0].label, pieces[1].label);
}

#[test]
fn continuation_chain_idempotent() {
    let mut pieces = vec![
        piece(Some("Speaker 1"), "Hvis du", true),
        piece(Some("Speaker 2"), "bare klikker på testkurs oppå", true),
        piece(Some("Speaker 2"), "den gule igjen, da.", true),
    ];
    absorb_text_continuation_chains(&mut pieces);
    let once: Vec<_> = pieces.iter().map(|p| p.label.clone()).collect();
    absorb_text_continuation_chains(&mut pieces);
    let twice: Vec<_> = pieces.iter().map(|p| p.label.clone()).collect();
    assert_eq!(once, twice);
}

#[test]
fn continuation_chain_tie_goes_to_the_label_that_speaks_first() {
    let mut pieces = vec![
        piece(Some("Speaker 1"), "we could", true),
        piece(Some("Speaker 2"), "maybe try", true),
    ];
    absorb_text_continuation_chains(&mut pieces);
    assert_eq!(pieces[0].label.as_deref(), Some("Speaker 1"));
    assert_eq!(pieces[1].label.as_deref(), Some("Speaker 1"));
}

#[test]
fn continuation_chain_stops_after_six_pieces() {
    let mut pieces = vec![
        piece(Some("Speaker 1"), "one two", true),
        piece(Some("Speaker 2"), "and", true),
        piece(Some("Speaker 2"), "and", true),
        piece(Some("Speaker 2"), "and", true),
        piece(Some("Speaker 2"), "and", true),
        piece(Some("Speaker 2"), "and", true),
        piece(Some("Speaker 2"), "and then", true),
        piece(Some("Speaker 1"), "so on and on and on", true),
    ];
    absorb_text_continuation_chains(&mut pieces);
    // The first chain holds six pieces (Speaker 2 outweighs Speaker 1 there);
    // the last two form a chain of their own, which Speaker 1 carries.
    for p in &pieces[..6] {
        assert_eq!(p.label.as_deref(), Some("Speaker 2"));
    }
    assert_eq!(pieces[6].label.as_deref(), Some("Speaker 1"));
    assert_eq!(pieces[7].label.as_deref(), Some("Speaker 1"));
}

#[test]
fn piece_ends_terminator_recognises_typical_endings() {
    assert!(piece_ends_terminator("Hello world."));
    assert!(piece_ends_terminator("Really?"));
    assert!(piece_ends_terminator("Stop!"));
    assert!(piece_ends_terminator("see this:"));
    assert!(piece_ends_terminator("done.\""));
    assert!(!piece_ends_terminator("I was going to"));
    assert!(!piece_ends_terminator("I was going to ..."));
    assert!(!piece_ends_terminator("Hvis du"));
    assert!(!piece_ends_terminator("trailing comma,"));
}

#[test]
fn piece_starts_continuation_recognises_typical_openings() {
    assert!(piece_starts_continuation("bare klikker..."));
    assert!(piece_starts_continuation("...continuation"));
    assert!(piece_starts_continuation("…og så"));
    assert!(!piece_starts_continuation("Hello world"));
    assert!(!piece_starts_continuation("Men hva nå?"));
}

#[test]
fn bridge_end_to_end_collapses_three_lines_to_one() {
    let chunk = sys_with_words(
        0,
        vec![
            ("the", 0, 200),
            ("plan", 200, 400),
            ("is", 400, 600),
            ("yeah", 4500, 4900),
            ("simple", 6000, 6500),
            ("really", 6500, 6900),
        ],
    );
    let segs = vec![seg(0, 4_400, "A"), seg(4_400, 5_000, "B"), seg(5_000, 10_000, "A")];
    let chunks = vec![chunk];
    let display_map = build_display_map(&chunks, &segs, ChunkSource::Sys);
    let splitter = move |c: &ChunkRecord| split_by_segments(c, &segs, &display_map);
    assert_eq!(
        build_labelled_transcript(&chunks, &splitter),
        "Speaker 1: the plan is yeah simple really"
    );
}

#[test]
fn split_chunk_into_transcript_emits_separate_lines_per_speaker() {
    let chunks = vec![sys_with_words(
        0,
        vec![("hello", 0, 500), ("there.", 500, 1000), ("Hi", 5000, 5300), ("back.", 5300, 5700)],
    )];
    let segs = vec![seg(0, 4_500, "A"), seg(4_500, 10_000, "B")];
    let display_map = build_display_map(&chunks, &segs, ChunkSource::Sys);
    let splitter = move |c: &ChunkRecord| split_by_segments(c, &segs, &display_map);
    assert_eq!(
        build_labelled_transcript(&chunks, &splitter),
        "Speaker 1: hello there.\nSpeaker 2: Hi back."
    );
}

#[test]
fn assign_speaker_inside_segment() {
    let segs = vec![seg(0, 5000, "A"), seg(5000, 10000, "B")];
    assert_eq!(assign_speaker(2500, &segs), Some("A"));
    assert_eq!(assign_speaker(5000, &segs), Some("B"));
    assert_eq!(assign_speaker(9999, &segs), Some("B"));
}

#[test]
fn assign_speaker_in_gap_uses_closest() {
    let segs = vec![seg(0, 5000, "A"), seg(7000, 10000, "B")];
    assert_eq!(assign_speaker(5500, &segs), Some("A"));
    assert_eq!(assign_speaker(6800, &segs), Some("B"));
}

#[test]
fn assign_speaker_before_first_segment() {
    let segs = vec![seg(2000, 5000, "A")];
    assert_eq!(assign_speaker(500, &segs), Some("A"));
}

#[test]
fn assign_speaker_empty_segments() {
    let segs: Vec<Segment> = vec![];
    assert_eq!(assign_speaker(1000, &segs), None);
}

#[test]
fn build_transcript_empty_chunks() {
    assert_eq!(mic_only_labeller(vec![], vec![seg(0, 1000, "A")]), "");
}

#[test]
fn build_transcript_single_speaker_runs() {
    let chunks = vec![mic(0, "hello"), mic(2000, "world"), mic(5000, "again")];
    assert_eq!(
        mic_only_labeller(chunks, vec![seg(0, 10000, "A")]),
        "Speaker 1: hello world again"
    );
}

#[test]
fn build_transcript_speaker_switch_inserts_newline_and_prefix() {
    let chunks = vec![mic(0, "First turn."), mic(3500, "Second turn."), mic(7000, "Third turn.")];
    let segs = vec![seg(0, 3000, "A"), seg(3000, 6000, "B"), seg(6000, 9000, "A")];
    assert_eq!(
        mic_only_labeller(chunks, segs),
        "Speaker 1: First turn.\nSpeaker 2: Second turn.\nSpeaker 1: Third turn."
    );
}

#[test]
fn build_transcript_skips_empty_chunks() {
    let chunks = vec![mic(0, "real text"), mic(1000, "   "), mic(2000, "more")];
    assert_eq!(
        mic_only_labeller(chunks, vec![seg(0, 5000, "A")]),
        "Speaker 1: real text more"
    );
}

#[test]
fn build_transcript_remote_call_mic_is_you_sys_is_diarized() {
    let chunks = vec![
        mic(0, "Hi there."),
        sys(500, "Hello."),
        mic(2500, "How are you?"),
        sys(4000, "Doing well."),
    ];
    let sys_segs = vec![seg(0, 10000, "REMOTE_A")];
    let display_map = build_display_map(&chunks, &sys_segs, ChunkSource::Sys);
    let labeller = move |c: &ChunkRecord| match c.source {
        ChunkSource::Mic => Some("You".to_string()),
        ChunkSource::Sys => assign_speaker(c.start_ms, &sys_segs)
            .and_then(|sid| display_map.get(sid).map(|n| format!("Speaker {n}"))),
    };
    assert_eq!(
        build_labelled_transcript(&chunks, &whole_chunk_pieces(labeller)),
        "You: Hi there.\nSpeaker 1: Hello.\nYou: How are you?\nSpeaker 1: Doing well."
    );
}

#[test]
fn hybrid_fallback_keeps_sys_chunks_distinct_from_mic() {
    let chunks = vec![mic(0, "Ok thanks."), sys(500, "You got it."), mic(2000, "See you tomorrow.")];
    let labeller = |c: &ChunkRecord| match c.source {
        ChunkSource::Mic => Some("You".to_string()),
        ChunkSource::Sys => Some("Speaker 1".to_string()),
    };
    assert_eq!(
        build_labelled_transcript(&chunks, &whole_chunk_pieces(labeller)),
        "You: Ok thanks.\nSpeaker 1: You got it.\nYou: See you tomorrow."
    );
}

#[test]
fn hybrid_in_person_meeting_with_one_stray_sys_chunk_still_separates_the_room() {
    let chunks = vec![
        mic(0, "Michael opens."),
        mic(20_000, "Stian answers."),
        sys(110_000, "Enhver likhet med virkelige hendelser er tilfeldig."),
        mic(120_000, "Petter weighs in."),
        mic(140_000, "Michael again."),
    ];
    let mic_segs = vec![
        seg(0, 15_000, "M"),
        seg(20_000, 30_000, "S"),
        seg(120_000, 130_000, "P"),
        seg(140_000, 150_000, "M"),
    ];
    let sys_segs = vec![seg(110_000, 112_000, "TV")];

    let labels = build_hybrid_labels(&chunks, &mic_segs, &sys_segs);
    assert_eq!(labels.mic.len(), 3, "three voices on the mic stay distinct");
    assert!(!labels.mic.values().iter().any(|l| l == "You"), "a room of three is not one `You`");
    assert_eq!(labels.mic.get("M").map(String::as_str), Some("Speaker 1"));
    assert_eq!(labels.mic.get("S").map(String::as_str), Some("Speaker 2"));
    assert_eq!(labels.sys.get("TV").map(String::as_str), Some("Speaker 3"));
    assert_eq!(labels.mic.get("P").map(String::as_str), Some("Speaker 4"));
    assert_eq!(labels.next_free, 5);

    let splitter = hybrid_splitter(&chunks, mic_segs, sys_segs);
    assert_eq!(
        build_labelled_transcript(&chunks, &splitter),
        "Speaker 1: Michael opens.\n\
         Speaker 2: Stian answers.\n\
         Speaker 3: Enhver likhet med virkelige hendelser er tilfeldig.\n\
         Speaker 4: Petter weighs in.\n\
         Speaker 1: Michael again."
    );
}

#[test]
fn hybrid_lone_mic_voice_keeps_the_you_label() {
    let chunks = vec![
        mic(0, "Hi there."),
        sys(500, "Hello."),
        mic(2500, "How are you?"),
        sys(4000, "Doing well."),
    ];
    let mic_segs = vec![seg(0, 10_000, "ME")];
    let sys_segs = vec![seg(0, 2000, "REMOTE_A"), seg(3500, 6000, "REMOTE_B")];

    let labels = build_hybrid_labels(&chunks, &mic_segs, &sys_segs);
    assert_eq!(labels.mic.get("ME").map(String::as_str), Some("You"));
    assert_eq!(labels.sys.get("REMOTE_A").map(String::as_str), Some("Speaker 1"));
    assert_eq!(labels.sys.get("REMOTE_B").map(String::as_str), Some("Speaker 2"));
    assert_eq!(labels.next_free, 3);

    let splitter = hybrid_splitter(&chunks, mic_segs, sys_segs);
    assert_eq!(
        build_labelled_transcript(&chunks, &splitter),
        "You: Hi there.\nSpeaker 1: Hello.\nYou: How are you?\nSpeaker 2: Doing well."
    );
}

#[test]
fn hybrid_speaker_numbers_never_collide_across_streams() {
    let chunks = vec![
        mic(0, "Room one."),
        mic(10_000, "Room two."),
        sys(20_000, "Remote one."),
        sys(30_000, "Remote two."),
    ];
    let mic_segs = vec![seg(0, 5000, "A"), seg(10_000, 15_000, "B")];
    let sys_segs = vec![seg(20_000, 25_000, "X"), seg(30_000, 35_000, "Y")];

    let labels = build_hybrid_labels(&chunks, &mic_segs, &sys_segs);
    let mut all: Vec<String> = labels.mic.values();
    all.extend(labels.sys.values());
    all.sort();
    let before = all.len();
    all.dedup();
    assert_eq!(before, all.len(), "every speaker got a unique label: {all:?}");
    assert_eq!(all.len(), 4);
    assert_eq!(labels.next_free, 5);
}

#[test]
fn hybrid_sys_fallback_number_clears_the_mic_speakers() {
    let chunks = vec![mic(0, "Room one."), mic(10_000, "Room two."), sys(20_000, "Undiarized remote audio.")];
    let mic_segs = vec![seg(0, 5000, "A"), seg(10_000, 15_000, "B")];

    let labels = build_hybrid_labels(&chunks, &mic_segs, &[]);
    assert_eq!(labels.mic.len(), 2);
    assert!(labels.sys.is_empty());
    assert_eq!(labels.next_free, 3, "fallback takes Speaker 3");

    let splitter = hybrid_splitter(&chunks, mic_segs, Vec::new());
    assert_eq!(
        build_labelled_transcript(&chunks, &splitter),
        "Speaker 1: Room one.\nSpeaker 2: Room two.\nSpeaker 3: Undiarized remote audio."
    );
}

#[test]
fn hybrid_total_diarize_failure_matches_the_legacy_labels() {
    let chunks = vec![mic(0, "Ok thanks."), sys(500, "You got it."), mic(2000, "See you tomorrow.")];
    let labels = build_hybrid_labels(&chunks, &[], &[]);
    assert!(labels.mic.is_empty() && labels.sys.is_empty());
    assert_eq!(labels.next_free, 1);

    let splitter = hybrid_splitter(&chunks, Vec::new(), Vec::new());
    assert_eq!(
        build_labelled_transcript(&chunks, &splitter),
        "You: Ok thanks.\nSpeaker 1: You got it.\nYou: See you tomorrow."
    );
}

#[test]
fn hybrid_mic_diarize_failure_alone_still_numbers_the_remote_side_from_one() {
    let chunks = vec![mic(0, "Mine."), sys(500, "Theirs."), sys(9000, "Other theirs.")];
    let sys_segs = vec![seg(0, 5000, "X"), seg(8000, 12_000, "Y")];

    let labels = build_hybrid_labels(&chunks, &[], &sys_segs);
    assert!(labels.mic.is_empty());
    assert_eq!(labels.sys.get("X").map(String::as_str), Some("Speaker 1"));
    assert_eq!(labels.sys.get("Y").map(String::as_str), Some("Speaker 2"));

    let splitter = hybrid_splitter(&chunks, Vec::new(), sys_segs);
    assert_eq!(
        build_labelled_transcript(&chunks, &splitter),
        "You: Mine.\nSpeaker 1: Theirs.\nSpeaker 2: Other theirs."
    );
}

#[test]
fn hybrid_mic_chunk_splits_mid_chunk_between_two_people_in_the_room() {
    let chunks = vec![
        mic_with_words(
            0,
            vec![
                ("Hva", 0, 500),
                ("mener", 500, 1000),
                ("du?", 1000, 1500),
                ("Jeg", 6000, 6500),
                ("er", 6500, 7000),
                ("enig.", 7000, 7500),
            ],
        ),
        sys(20_000, "Chime."),
    ];
    let mic_segs = vec![seg(0, 3000, "A"), seg(5000, 9000, "B")];
    let sys_segs = vec![seg(20_000, 21_000, "T")];

    let labels = build_hybrid_labels(&chunks, &mic_segs, &sys_segs);
    assert_eq!(labels.mic.len(), 2, "two voices inside one mic chunk");

    let pieces = split_by_labels(&chunks[0], &mic_segs, &labels.mic);
    assert_eq!(pieces.len(), 2, "chunk split at the speaker boundary");
    assert_eq!(pieces[0].text, "Hva mener du?");
    assert_eq!(pieces[1].text, "Jeg er enig.");
    assert_ne!(pieces[0].label, pieces[1].label);
}

#[test]
fn hybrid_segment_no_chunk_reaches_does_not_consume_a_number() {
    let chunks = vec![mic(0, "Only voice."), sys(50_000, "Remote.")];
    let mic_segs = vec![seg(0, 10_000, "A"), seg(20_000, 30_000, "GHOST")];
    let sys_segs = vec![seg(50_000, 55_000, "X")];

    let labels = build_hybrid_labels(&chunks, &mic_segs, &sys_segs);
    assert_eq!(labels.mic.len(), 1, "GHOST never reached, so never numbered");
    assert_eq!(labels.mic.get("A").map(String::as_str), Some("You"));
    assert_eq!(labels.sys.get("X").map(String::as_str), Some("Speaker 1"));
}

#[test]
fn timing_collapse_catches_the_real_hallucinated_chunk() {
    let spans = vec![
        (760, 760),
        (760, 1200),
        (1500, 1500),
        (1570, 2260),
        (2260, 3050),
        (3050, 3050),
        (3050, 3050),
        (3050, 3050),
        (3050, 3050),
    ];
    assert!(is_timing_collapse(&spans));
}

#[test]
fn timing_collapse_ignores_clean_timings() {
    let spans = vec![(0, 260), (260, 520), (520, 860), (890, 1380), (1400, 1560)];
    assert!(!is_timing_collapse(&spans));
    assert!(!is_timing_collapse(&[(0, 260), (300, 300), (400, 900)]));
    assert!(!is_timing_collapse(&[(0, 260), (300, 300), (300, 300), (400, 900)]));
    assert!(!is_timing_collapse(&[(100, 100), (200, 200), (300, 300)]));
    assert!(!is_timing_collapse(&[]));
}

#[test]
fn timing_collapse_alone_would_flag_real_speech_so_never_use_it_alone() {
    let real_speech_with_pinned_run = vec![
        (0, 300),
        (300, 620),
        (900, 900),
        (900, 900),
        (900, 900),
        (900, 900),
        (900, 900),
        (900, 900),
        (900, 900),
    ];
    assert!(
        is_timing_collapse(&real_speech_with_pinned_run),
        "documents the false positive this signal has on its own"
    );
}

#[test]
fn dominant_stream_keeps_its_chunks_however_odd_the_timings() {
    let mut chunks: Vec<ChunkRecord> = (0..156)
        .map(|i| {
            mic_with_words(
                i * 15_000,
                vec![("Det", 0, 300), ("var", 900, 900), ("den", 900, 900), ("ja", 900, 900)],
            )
        })
        .collect();
    chunks.push(sys_with_words(
        110_019,
        vec![("Enhver", 760, 760), ("og", 3050, 3050), ("personer", 3050, 3050), ("er", 3050, 3050)],
    ));

    let kept = drop_incidental_stream_hallucinations(chunks);
    assert_eq!(kept.len(), 156, "every mic chunk survives");
    assert!(kept.iter().all(|c| c.source == ChunkSource::Mic));
}

#[test]
fn a_stream_carrying_real_share_is_not_pruned() {
    let chunks = vec![
        mic_with_words(0, vec![("me", 0, 300)]),
        sys_with_words(1_000, vec![("a", 500, 500), ("b", 500, 500), ("c", 500, 500), ("d", 500, 500)]),
        mic_with_words(2_000, vec![("me", 0, 300)]),
        sys_with_words(3_000, vec![("them", 0, 400)]),
    ];
    assert_eq!(drop_incidental_stream_hallucinations(chunks).len(), 4);
}

#[test]
fn dropping_the_collapsed_chunk_makes_the_recording_mic_only_again() {
    let mut chunks: Vec<ChunkRecord> = (0..40)
        .map(|i| mic_with_words(i * 15_000, vec![("Jeg", 0, 260), ("snakker", 260, 900)]))
        .collect();
    chunks.push(sys_with_words(
        110_019,
        vec![
            ("Enhver", 760, 760),
            ("likhet", 760, 1200),
            ("og", 3050, 3050),
            ("personer", 3050, 3050),
            ("er", 3050, 3050),
            ("tilfeldig.", 3050, 3050),
        ],
    ));
    assert!(chunks.iter().any(|c| c.source == ChunkSource::Sys));

    let kept = drop_incidental_stream_hallucinations(chunks);
    assert_eq!(kept.len(), 40, "the collapsed sys chunk is gone");
    assert!(!kept.iter().any(|c| c.source == ChunkSource::Sys), "no sys chunks left");
}

#[test]
fn chunks_without_word_timings_survive_the_filter() {
    let chunks = vec![mic(0, "no word timings here"), sys(5_000, "nor here")];
    assert_eq!(drop_incidental_stream_hallucinations(chunks).len(), 2);
}

#[test]
fn incidental_sys_stream_gives_the_whole_head_count_to_the_mic() {
    let mut chunks: Vec<ChunkRecord> = (0..156).map(|i| mic(i * 15_000, "talk")).collect();
    chunks.push(sys(110_000, "chime"));

    assert_eq!(hybrid_sys_hint(Some(3), &chunks), None, "sys gets no hint");
    assert_eq!(mic_hint_after_sys(Some(3), &[]), Some(3));
}

#[test]
fn real_remote_call_still_reserves_one_speaker_for_the_mic() {
    let chunks = vec![mic(0, "me"), sys(1_000, "them"), mic(2_000, "me"), sys(3_000, "them")];
    assert_eq!(hybrid_sys_hint(Some(3), &chunks), Some(2));
    let sys_segs = vec![seg(0, 5_000, "R1"), seg(5_000, 9_000, "R2")];
    assert_eq!(mic_hint_after_sys(Some(3), &sys_segs), Some(1));
}

#[test]
fn hybrid_hints_are_none_without_a_note_head_count() {
    let chunks = vec![mic(0, "a"), sys(1_000, "b")];
    assert_eq!(hybrid_sys_hint(None, &chunks), None);
    assert_eq!(mic_hint_after_sys(None, &[]), None);
}

#[test]
fn mic_hint_floors_at_one_speaker() {
    let sys_segs = vec![seg(0, 1_000, "A"), seg(1_000, 2_000, "B"), seg(2_000, 3_000, "C")];
    assert_eq!(mic_hint_after_sys(Some(3), &sys_segs), Some(1));
    assert_eq!(mic_hint_after_sys(Some(2), &sys_segs), Some(1));
}

#[test]
fn hybrid_sys_hint_handles_no_chunks() {
    assert_eq!(hybrid_sys_hint(Some(3), &[]), None);
}

#[test]
fn hybrid_sys_hint_never_asks_for_fewer_than_one() {
    let chunks = vec![mic(0, "me"), sys(1_000, "them")];
    assert_eq!(hybrid_sys_hint(Some(1), &chunks), Some(1));
    assert_eq!(hybrid_sys_hint(Some(0), &chunks), Some(1));
}

#[test]
fn distinct_speaker_count_counts_voices_not_segments() {
    let segs = vec![seg(0, 1000, "A"), seg(1000, 2000, "B"), seg(2000, 3000, "A"), seg(3000, 4000, "C")];
    assert_eq!(distinct_speaker_count(&segs), 3);
    assert_eq!(distinct_speaker_count(&[]), 0);
}

#[test]
fn label_returning_none_glues_to_previous_label_dont_use_for_distinct_speakers() {
    let chunks = vec![mic(0, "Ok thanks."), sys(500, "You got it.")];
    let buggy = |c: &ChunkRecord| match c.source {
        ChunkSource::Mic => Some("You".to_string()),
        ChunkSource::Sys => None,
    };
    let result = build_labelled_transcript(&chunks, &whole_chunk_pieces(buggy));
    assert_eq!(result, "You: Ok thanks. You got it.");
}

#[test]
fn build_transcript_orders_by_start_ms_with_mic_priority_on_tie() {
    let chunks = vec![sys(0, "From sys."), mic(0, "From mic.")];
    let labeller = |c: &ChunkRecord| match c.source {
        ChunkSource::Mic => Some("You".to_string()),
        ChunkSource::Sys => Some("Speaker 1".to_string()),
    };
    assert_eq!(
        build_labelled_transcript(&chunks, &whole_chunk_pieces(labeller)),
        "You: From mic.\nSpeaker 1: From sys."
    );
}

#[test]
fn max_speaker_number_finds_highest() {
    let text = "Speaker 1: hi\nSpeaker 2: hello\nSpeaker 1: again";
    assert_eq!(max_speaker_number(text), 2);
}

#[test]
fn max_speaker_number_zero_when_no_labels() {
    assert_eq!(max_speaker_number("just plain text"), 0);
    assert_eq!(max_speaker_number("Michael: hi\nWilma: hello"), 0);
    assert_eq!(max_speaker_number(""), 0);
}

#[test]
fn max_speaker_number_handles_multi_digit() {
    let text = "Speaker 1: hi\nSpeaker 12: hello";
    assert_eq!(max_speaker_number(text), 12);
}

#[test]
fn offset_speaker_numbers_adds_offset() {
    let text = "Speaker 1: hi\nSpeaker 2: hello";
    assert_eq!(offset_speaker_numbers(text, 3), "Speaker 4: hi\nSpeaker 5: hello");
}

#[test]
fn offset_speaker_numbers_preserves_renamed() {
    let text = "Michael: hi\nWilma: hello\nSpeaker 1 was great";
    assert_eq!(offset_speaker_numbers(text, 5), text);
}

#[test]
fn combine_with_empty_snapshot_passes_through() {
    let new = "Speaker 1: hi\nSpeaker 2: hello";
    assert_eq!(combine_with_snapshot("", new), new);
    assert_eq!(combine_with_snapshot("   \n  ", new), new);
}

#[test]
fn combine_with_empty_new_returns_snapshot() {
    let snap = "Michael: prior content";
    assert_eq!(combine_with_snapshot(snap, ""), snap);
}

#[test]
fn combine_offsets_new_session_speakers() {
    let snap = "Speaker 1: prior A\nSpeaker 2: prior B";
    let new = "Speaker 1: new A\nSpeaker 2: new B";
    assert_eq!(
        combine_with_snapshot(snap, new),
        "Speaker 1: prior A\nSpeaker 2: prior B\nSpeaker 3: new A\nSpeaker 4: new B"
    );
}

#[test]
fn combine_no_offset_when_snapshot_uses_renamed() {
    let snap = "Michael: prior\nWilma: prior";
    let new = "Speaker 1: new";
    assert_eq!(combine_with_snapshot(snap, new), "Michael: prior\nWilma: prior\nSpeaker 1: new");
}
