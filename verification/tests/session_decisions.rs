use humla_core::capture::{
    capture_slot, claim_capture_slot, hybrid_notices, rediarize_precheck, rediarize_segments_check,
    single_stream_plan, DiarizeOutcome, LabelPlan, SlotDecision,
};
use humla_core::chat::{
    check_session_scope, default_breadth, inherited_breadth, new_session_plan, ChatTarget, NewSession,
};
use humla_core::sessions::SessionMode;

fn note(id: &str) -> ChatTarget {
    ChatTarget::Note(id.to_string())
}

#[test]
fn first_session_defaults_breadth_to_note() {
    match new_session_plan(None, &note("n1")) {
        NewSession::Create(b) => assert_eq!(b, "note"),
        other => panic!("expected a new session, got {other:?}"),
    }
}

#[test]
fn new_session_inherits_breadth_from_the_most_recent() {
    match new_session_plan(Some(("all", 1)), &note("n1")) {
        NewSession::Create(b) => assert_eq!(b, "all"),
        other => panic!("expected a new session, got {other:?}"),
    }
}

#[test]
fn new_chat_no_ops_when_the_most_recent_session_is_empty() {
    assert!(matches!(new_session_plan(Some(("note", 0)), &note("n1")), NewSession::ReuseLatest));
}

#[test]
fn inherited_breadth_resolves_per_tenant_for_a_workspace() {
    assert_eq!(inherited_breadth(None, &note("n1")), "note");
    assert_eq!(inherited_breadth(Some("all"), &note("n1")), "all");
}

#[test]
fn resolve_existing_rejects_a_cross_scope_conversation_id() {
    assert!(check_session_scope("personal", &note("n1"), "personal", &note("n1")).is_ok());
    assert!(check_session_scope("personal", &note("n2"), "personal", &note("n1")).is_err());
    assert!(check_session_scope("wsA", &note("n1"), "personal", &note("n1")).is_err());
}

#[test]
fn a_global_session_is_separate_from_every_notes_and_starts_at_all() {
    assert_eq!(inherited_breadth(None, &ChatTarget::Global), "all");
    assert_eq!(default_breadth(&note("n1")), "note");
    match new_session_plan(None, &ChatTarget::Global) {
        NewSession::Create(b) => assert_eq!(b, "all"),
        other => panic!("expected a new session, got {other:?}"),
    }
    assert!(matches!(new_session_plan(Some(("all", 0)), &ChatTarget::Global), NewSession::ReuseLatest));
    let err = check_session_scope("personal", &ChatTarget::Global, "personal", &note("n1")).unwrap_err();
    assert!(err.contains("library-wide"), "got: {err}");
    let err = check_session_scope("personal", &note("n1"), "personal", &ChatTarget::Global).unwrap_err();
    assert!(err.contains("this note"), "got: {err}");
}

#[test]
fn capture_slot_refuses_only_a_live_capture() {
    assert_eq!(capture_slot(false, false, false), SlotDecision::Free);
    assert_eq!(capture_slot(true, true, true), SlotDecision::Busy);
    assert_eq!(capture_slot(true, false, true), SlotDecision::Reclaim);
    assert_eq!(capture_slot(true, true, false), SlotDecision::Reclaim);
    assert_eq!(claim_capture_slot(true, true, true, false), Err("already recording".to_string()));
    assert_eq!(claim_capture_slot(true, true, true, true), Err("already recording or importing".to_string()));
    assert_eq!(claim_capture_slot(true, false, false, false), Ok(true));
    assert_eq!(claim_capture_slot(false, true, true, true), Ok(false));
}

#[test]
fn single_stream_plan_falls_back_to_one_speaker() {
    let (plan, notice) = single_stream_plan(false, &DiarizeOutcome::Segments);
    assert_eq!(plan, LabelPlan::Unlabelled);
    assert!(notice.unwrap().starts_with("Speaker diarization model isn't downloaded"));
    let (plan, notice) = single_stream_plan(true, &DiarizeOutcome::Failed("boom".to_string()));
    assert_eq!(plan, LabelPlan::SingleSpeaker);
    assert_eq!(notice.unwrap(), "Diarization failed (boom); all speech grouped under Speaker 1.");
    let (plan, notice) = single_stream_plan(true, &DiarizeOutcome::NoSegments);
    assert_eq!(plan, LabelPlan::SingleSpeaker);
    assert_eq!(
        notice.unwrap(),
        "Diarization found no distinct speakers; all speech grouped under Speaker 1."
    );
    let (plan, notice) = single_stream_plan(true, &DiarizeOutcome::NoAudio);
    assert_eq!(plan, LabelPlan::SingleSpeaker);
    assert!(notice.unwrap().starts_with("Diarization unavailable: the recording sidecar"));
    assert_eq!(single_stream_plan(true, &DiarizeOutcome::Segments), (LabelPlan::BySegments, None));
}

#[test]
fn hybrid_notices_report_the_remote_side_and_empty_runs() {
    assert_eq!(
        hybrid_notices(&DiarizeOutcome::Failed("x".to_string()), false),
        vec![
            "Diarization failed for the remote side (x); remote speech grouped under one speaker.".to_string(),
            "Diarization found no distinct speakers; speech grouped by audio source.".to_string(),
        ]
    );
    assert!(hybrid_notices(&DiarizeOutcome::Segments, false).is_empty());
    assert_eq!(hybrid_notices(&DiarizeOutcome::NoSegments, true), Vec::<String>::new());
    assert_eq!(hybrid_notices(&DiarizeOutcome::NoAudio, true).len(), 1);
}

#[test]
fn rediarize_refuses_without_chunks_or_audio() {
    assert_eq!(
        rediarize_precheck(None, true, true),
        Err("no usable chunks after dropping collapsed ones".to_string())
    );
    assert_eq!(
        rediarize_precheck(Some(SessionMode::MicOnly), false, true),
        Err("mic chunks present but no saved mic.wav".to_string())
    );
    assert_eq!(
        rediarize_precheck(Some(SessionMode::SysOnly), true, false),
        Err("sys chunks present but no saved sys.wav".to_string())
    );
    assert_eq!(rediarize_precheck(Some(SessionMode::Hybrid), false, false), Ok(()));
    assert_eq!(
        rediarize_segments_check(SessionMode::MicOnly, false),
        Err("diarize returned no segments".to_string())
    );
    assert_eq!(rediarize_segments_check(SessionMode::Hybrid, false), Ok(()));
}
