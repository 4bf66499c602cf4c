use humla_core::merge::{ends_sentence, merge_run_on_sentences};

#[test]
fn ends_sentence_recognises_terminators() {
    assert!(ends_sentence("he said."));
    assert!(ends_sentence("really?"));
    assert!(ends_sentence("stop!"));
    assert!(ends_sentence("note: this matters;"));
    assert!(ends_sentence("\"done.\""));
    assert!(ends_sentence("(yes!)"));
    assert!(ends_sentence("trailing space.   "));
}

#[test]
fn ends_sentence_rejects_open_endings() {
    assert!(!ends_sentence("he said"));
    assert!(!ends_sentence("I was thinking that"));
    assert!(!ends_sentence("comma, here"));
    assert!(!ends_sentence(""));
}

#[test]
fn merge_glues_open_clause_to_lowercase_continuation() {
    let input = "Speaker 1: I was thinking that\nSpeaker 1: we should pivot.";
    assert_eq!(
        merge_run_on_sentences(input),
        "Speaker 1: I was thinking that we should pivot."
    );
}

#[test]
fn merge_drops_label_prefix_from_absorbed_line() {
    let input = "Speaker 1: anyway the point is\nSpeaker 2: that we are out of time.";
    assert_eq!(
        merge_run_on_sentences(input),
        "Speaker 1: anyway the point is that we are out of time."
    );
}

#[test]
fn forward_move_relocates_long_fragment_trailing_word_to_next() {
    let input = "Speaker 1: Like you were working probably for 10 years in a lot of different things. Not\nSpeaker 1: quite 10, but a solid six or seven years as a working actor.";
    let output = merge_run_on_sentences(input);
    assert_eq!(
        output,
        "Speaker 1: Like you were working probably for 10 years in a lot of different things.\nSpeaker 1: Not quite 10, but a solid six or seven years as a working actor."
    );
}

#[test]
fn forward_move_relocates_trailing_sentence_start_to_next_speaker() {
    let input = "Speaker 1: starts to unravel in the perfect way. It\nSpeaker 2: does pay off. That's what's really nice.";
    let output = merge_run_on_sentences(input);
    assert_eq!(
        output,
        "Speaker 1: starts to unravel in the perfect way.\nSpeaker 2: It does pay off. That's what's really nice."
    );
}

#[test]
fn forward_move_handles_multi_word_trailing_fragment() {
    let input = "Speaker 1: that closes the door. So we\nSpeaker 2: can move on now.";
    let output = merge_run_on_sentences(input);
    assert_eq!(
        output,
        "Speaker 1: that closes the door.\nSpeaker 2: So we can move on now."
    );
}

#[test]
fn forward_move_skips_when_trailing_starts_lowercase() {
    let input = "Speaker 1: I think that\nSpeaker 2: we should do it.";
    let output = merge_run_on_sentences(input);
    assert_eq!(output, "Speaker 1: I think that we should do it.");
}

#[test]
fn backward_move_pulls_leading_sentence_close_to_prev_speaker() {
    let input = "Speaker 1: AMC was a young company. Brand new. Brand\nSpeaker 2: new. Hadn't done anything significant yet.";
    let output = merge_run_on_sentences(input);
    assert_eq!(
        output,
        "Speaker 1: AMC was a young company. Brand new. Brand new.\nSpeaker 2: Hadn't done anything significant yet."
    );
}

#[test]
fn backward_move_skips_when_leading_has_no_trailing_content() {
    let input = "Speaker 1: I think we should\nSpeaker 2: stop.";
    let output = merge_run_on_sentences(input);
    assert_eq!(output, "Speaker 1: I think we should stop.");
}

#[test]
fn backward_move_skips_when_leading_too_long() {
    let input = "Speaker 1: I was about to\nSpeaker 2: yes that is correct. Anyway moving on.";
    let output = merge_run_on_sentences(input);
    assert!(output.contains("Speaker 1: I was about to yes that is correct"), "got: {output}");
}

#[test]
fn merge_keeps_em_dash_interruption_distinct() {
    let input = "Speaker 1: But what about the —\nSpeaker 2: right but we have no time.";
    assert_eq!(merge_run_on_sentences(input), input);
}

#[test]
fn merge_keeps_en_dash_interruption_distinct() {
    let input = "Speaker 1: I was going to say –\nSpeaker 2: yeah I know what you mean.";
    assert_eq!(merge_run_on_sentences(input), input);
}

#[test]
fn merge_keeps_lines_that_already_end_in_terminator() {
    let input = "Speaker 1: hello there.\nSpeaker 2: yes hi.";
    assert_eq!(merge_run_on_sentences(input), input);
}

#[test]
fn merge_keeps_lines_when_next_starts_uppercase() {
    let input = "Speaker 1: I was thinking that\nSpeaker 2: We should pivot.";
    assert_eq!(merge_run_on_sentences(input), input);
}

#[test]
fn merge_handles_norwegian_lowercase_continuation() {
    let input = "Speaker 1: vi har snakket om\nSpeaker 1: økonomien lenge.";
    assert_eq!(
        merge_run_on_sentences(input),
        "Speaker 1: vi har snakket om økonomien lenge."
    );
}

#[test]
fn merge_chains_multiple_consecutive_glues() {
    let input = "Speaker 1: so I was thinking\nSpeaker 1: that we should\nSpeaker 1: pivot the strategy.";
    assert_eq!(
        merge_run_on_sentences(input),
        "Speaker 1: so I was thinking that we should pivot the strategy."
    );
}

#[test]
fn merge_passes_through_unlabelled_lines() {
    let input = "first fragment\nsecond piece.";
    assert_eq!(merge_run_on_sentences(input), "first fragment second piece.");
}
