use humla_core::cloud::{derive_role, CloudReqError};
use humla_core::intake::{bias_terms, effective_language, language_to_record, screen_chunk_text};
use humla_core::transcript::token_jaccard;
use humla_core::types::{ChunkRecord, ChunkSource};

fn strings(v: &[&str]) -> Vec<String> {
    v.iter().map(|s| s.to_string()).collect()
}

fn detected(text: &str, lang: Option<&str>) -> ChunkRecord {
    ChunkRecord {
        source: ChunkSource::Mic,
        start_ms: 0,
        text: text.to_string(),
        words: Vec::new(),
        detected_language: lang.map(str::to_string),
    }
}

#[test]
fn only_a_404_status_reads_as_not_found() {
    assert!(CloudReqError::Status { status: 404, reason: String::new(), server_message: String::new() }
        .is_not_found());
    assert!(!CloudReqError::Status {
        status: 402,
        reason: "cap_reached".into(),
        server_message: String::new(),
    }
    .is_not_found());
    assert!(!CloudReqError::Unreachable("Not signed in.".into()).is_not_found());
}

#[test]
fn message_passes_transport_through_and_maps_server_reasons() {
    fn map(reason: &str, server_message: &str) -> String {
        format!("mapped:{reason}/{server_message}")
    }
    assert_eq!(
        CloudReqError::Unreachable("Couldn't reach Team chat: dns error".into()).message(map),
        "Couldn't reach Team chat: dns error"
    );
    assert_eq!(
        CloudReqError::Status {
            status: 403,
            reason: "not_owner".into(),
            server_message: "only the owner may".into(),
        }
        .message(map),
        "mapped:not_owner/only the owner may"
    );
    assert_eq!(
        CloudReqError::Status { status: 500, reason: String::new(), server_message: String::new() }.message(map),
        "mapped:/"
    );
}

#[test]
fn roles_rank_owner_then_admin_then_viewer() {
    let admins = strings(&["u2", "u3"]);
    let viewers = strings(&["u3", "u4"]);
    assert_eq!(derive_role(Some("u1"), &admins, &viewers, "u1"), "owner");
    assert_eq!(derive_role(Some("u1"), &admins, &viewers, "u3"), "admin");
    assert_eq!(derive_role(Some("u1"), &admins, &viewers, "u4"), "viewer");
    assert_eq!(derive_role(Some("u1"), &admins, &viewers, "u5"), "member");
    assert_eq!(derive_role(None, &[], &[], "u1"), "member");
}

#[test]
fn token_jaccard_is_shared_over_union_of_distinct_tokens() {
    assert_eq!(token_jaccard(&strings(&["a", "b", "c", "c"]), &strings(&["b", "c", "d"])), (2, 4));
    assert_eq!(token_jaccard(&strings(&["a"]), &Vec::new()), (0, 0));
}

#[test]
fn screening_drops_silence_hallucinations_and_loops() {
    assert_eq!(screen_chunk_text("Hei.", "no", ChunkSource::Mic, None), None);
    assert_eq!(screen_chunk_text("...", "en", ChunkSource::Sys, None), None);
    assert_eq!(screen_chunk_text("yes yes yes yes yes yes yes yes", "en", ChunkSource::Sys, None), None);
}

#[test]
fn screening_strips_a_caption_tail_from_long_speech_and_trims() {
    let speech = "So the plan for the migration is to move the billing tables first, then the invoices, and finally the audit log on Friday.";
    let text = format!("  {speech} Thanks for watching!");
    assert_eq!(screen_chunk_text(&text, "en", ChunkSource::Sys, None), Some(speech.to_string()));
    assert_eq!(screen_chunk_text("  real words here  ", "en", ChunkSource::Sys, None), Some("real words here".to_string()));
}

#[test]
fn screening_drops_a_mic_chunk_that_repeats_the_previous_one() {
    let prev = "we should ship the migration on friday";
    let text = "We should ship the migration on Friday.";
    assert_eq!(screen_chunk_text(text, "en", ChunkSource::Mic, Some(prev)), None);
    // The system stream is never checked against its predecessor.
    assert_eq!(screen_chunk_text(text, "en", ChunkSource::Sys, Some(prev)), Some(text.to_string()));
    // New words pull the overlap below the bar.
    let grown = "We should ship the migration on Friday after the billing freeze lifts.";
    assert_eq!(screen_chunk_text(grown, "en", ChunkSource::Mic, Some(prev)), Some(grown.to_string()));
    // Fewer than three tokens are never treated as a loop.
    assert_eq!(screen_chunk_text("ok sure", "en", ChunkSource::Mic, Some("ok sure")), Some("ok sure".to_string()));
}

#[test]
fn bias_terms_split_on_newlines_and_commas_and_drop_short_entries() {
    assert_eq!(
        bias_terms("Humla, PocketBase\nab, Ola Nordmann ,,x"),
        strings(&["Humla", "PocketBase", "Ola Nordmann"])
    );
    assert!(bias_terms("").is_empty());
    // Length is counted in bytes: two non-ASCII letters make three or more.
    assert_eq!(bias_terms("øy"), strings(&["øy"]));
}

#[test]
fn the_note_language_wins_unless_blank() {
    assert_eq!(effective_language("en", "no"), "en");
    assert_eq!(effective_language("  ", "no"), "no");
    assert_eq!(effective_language("", "auto"), "auto");
}

#[test]
fn the_detected_language_is_recorded_once_and_only_in_auto_mode() {
    let chunks = vec![
        detected("hei hvordan går det med deg", Some("no")),
        detected("det går bra takk", Some("no")),
    ];
    assert_eq!(language_to_record(&chunks, false, "", "auto"), Some("no".to_string()));
    assert_eq!(language_to_record(&chunks, false, "auto", "en"), Some("no".to_string()));
    assert_eq!(language_to_record(&chunks, true, "", "auto"), None);
    assert_eq!(language_to_record(&chunks, false, "en", "auto"), None);
    assert_eq!(language_to_record(&[], false, "", "auto"), None);
}
