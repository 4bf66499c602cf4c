use humla_core::sessions::{LabelSpan, SessionMode, UnifySession};
use humla_core::timeline::TimelineRecord;
use humla_core::types::{ChunkRecord, ChunkSource, Segment};
use humla_core::unify::{session_offsets, unify_mic_hint, unify_relabel, unify_sys_hint, UnifyOutcome};

fn seg(start_ms: u64, end_ms: u64, sid: &str) -> Segment {
    Segment { start_ms, end_ms, speaker_id: sid.to_string() }
}

fn mic(start_ms: u64, text: &str) -> ChunkRecord {
    ChunkRecord {
        source: ChunkSource::Mic,
        start_ms,
        text: text.to_string(),
        words: Vec::new(),
        detected_language: None,
    }
}

fn sys(start_ms: u64, text: &str) -> ChunkRecord {
    ChunkRecord {
        source: ChunkSource::Sys,
        start_ms,
        text: text.to_string(),
        words: Vec::new(),
        detected_language: None,
    }
}

fn span(start_ms: u64, end_ms: u64, label: &str, source: Option<ChunkSource>) -> LabelSpan {
    LabelSpan { start_ms, end_ms, label: label.to_string(), source }
}

fn usess(
    id: &str,
    mode: SessionMode,
    chunks: Vec<ChunkRecord>,
    mic_offset_ms: u64,
    sys_offset_ms: u64,
    old_spans: Vec<LabelSpan>,
) -> UnifySession {
    UnifySession { session_id: id.to_string(), mode, chunks, mic_offset_ms, sys_offset_ms, old_spans }
}

fn run(sessions: &[UnifySession], mic_segs: &[Segment], sys_segs: &[Segment], offset: u32) -> UnifyOutcome {
    unify_relabel(sessions, mic_segs, sys_segs, offset).expect("speech time fits")
}

/// (label, text) per record of a session timeline.
fn entries_of(records: &[TimelineRecord]) -> Vec<(String, String)> {
    records.iter().map(|r| (r.label.clone(), r.text.clone())).collect()
}

/// The label spans the next run reads off a written timeline.
fn spans_of(records: &[TimelineRecord]) -> Vec<LabelSpan> {
    records
        .iter()
        .map(|r| LabelSpan {
            start_ms: r.start_ms,
            end_ms: r.end_ms,
            label: r.label.clone(),
            source: Some(r.source),
        })
        .collect()
}

type Flat = Vec<(String, Vec<(u64, u64, String, String, Vec<(String, u64, u64)>, ChunkSource)>)>;

fn flat(out: &UnifyOutcome) -> Flat {
    out.timelines
        .iter()
        .map(|(id, rs)| {
            (
                id.clone(),
                rs.iter()
                    .map(|r| {
                        (
                            r.start_ms,
                            r.end_ms,
                            r.label.clone(),
                            r.text.clone(),
                            r.words.iter().map(|w| (w.text.clone(), w.start_ms, w.end_ms)).collect(),
                            r.source,
                        )
                    })
                    .collect(),
            )
        })
        .collect()
}

#[test]
fn same_voice_across_sessions_gets_one_label() {
    let s1 = usess(
        "a",
        SessionMode::MicOnly,
        vec![mic(0, "hello from voice one."), mic(6_000, "reply from voice two.")],
        0,
        0,
        Vec::new(),
    );
    let s2 = usess("b", SessionMode::MicOnly, vec![mic(1_000, "voice one again in take two.")], 10_000, 0, Vec::new());
    let segs = vec![seg(0, 5_000, "spk_a"), seg(6_000, 10_000, "spk_b"), seg(10_500, 15_000, "spk_a")];
    let out = run(&[s1, s2], &segs, &[], 0);
    assert_eq!(out.timelines.len(), 2);
    assert!(out.notices.is_empty());

    let t1 = entries_of(&out.timelines[0].1);
    let t2 = entries_of(&out.timelines[1].1);
    assert_eq!(t1[0].0, "Speaker 1");
    assert_eq!(t1[1].0, "Speaker 2");
    assert_eq!(t2[0].0, "Speaker 1");
    assert_eq!(out.timelines[1].1[0].start_ms, 1_000);
}

#[test]
fn hybrid_mic_is_diarized_and_unified_with_the_in_person_take() {
    let s1 = usess("a", SessionMode::MicOnly, vec![mic(0, "in person voice.")], 0, 0, Vec::new());
    let s2 = usess(
        "b",
        SessionMode::Hybrid,
        vec![mic(0, "me on the call."), sys(2_000, "remote person answering.")],
        0,
        0,
        Vec::new(),
    );
    let mic_segs = vec![seg(0, 5_000, "spk_m")];
    let sys_segs = vec![seg(1_500, 6_000, "spk_r")];
    let out = run(&[s1, s2], &mic_segs, &sys_segs, 0);

    let t1 = entries_of(&out.timelines[0].1);
    let t2 = entries_of(&out.timelines[1].1);
    assert_eq!(t1[0].0, "Speaker 1");
    assert_eq!(t2[0].0, "Speaker 1");
    assert_eq!(t2[1].0, "Speaker 2");
}

#[test]
fn all_hybrid_takes_with_a_lone_mic_voice_keep_you() {
    let s1 = usess(
        "a",
        SessionMode::Hybrid,
        vec![mic(0, "me first."), sys(2_000, "them first.")],
        0,
        0,
        Vec::new(),
    );
    let s2 = usess(
        "b",
        SessionMode::Hybrid,
        vec![mic(0, "me again."), sys(2_000, "them again.")],
        0,
        0,
        Vec::new(),
    );
    let mic_segs = vec![seg(0, 5_000, "spk_me")];
    let sys_segs = vec![seg(1_500, 6_000, "spk_them")];
    let out = run(&[s1, s2], &mic_segs, &sys_segs, 0);

    let t1 = entries_of(&out.timelines[0].1);
    let t2 = entries_of(&out.timelines[1].1);
    assert_eq!(t1[0].0, "You");
    assert_eq!(t1[1].0, "Speaker 1");
    assert_eq!(t2[0].0, "You");
    assert_eq!(t2[1].0, "Speaker 1");
}

#[test]
fn hybrid_takes_with_several_mic_voices_number_the_room() {
    let s1 = usess(
        "a",
        SessionMode::Hybrid,
        vec![mic(0, "first colleague."), mic(6_000, "second colleague."), sys(12_000, "remote voice.")],
        0,
        0,
        Vec::new(),
    );
    let mic_segs = vec![seg(0, 4_000, "spk_a"), seg(5_000, 9_000, "spk_b")];
    let sys_segs = vec![seg(11_000, 15_000, "spk_r")];
    let out = run(&[s1], &mic_segs, &sys_segs, 0);

    let t = entries_of(&out.timelines[0].1);
    assert_eq!(t[0].0, "Speaker 1");
    assert_eq!(t[1].0, "Speaker 2");
    assert_eq!(t[2].0, "Speaker 3");
    assert!(!t.iter().any(|e| e.0 == "You"));
}

#[test]
fn timeline_entries_carry_source() {
    let s = usess(
        "a",
        SessionMode::Hybrid,
        vec![mic(0, "me talking."), sys(3_000, "remote talking.")],
        0,
        0,
        Vec::new(),
    );
    let sys_segs = vec![seg(2_500, 6_000, "spk_r")];
    let out = run(&[s], &[], &sys_segs, 0);
    let spans = spans_of(&out.timelines[0].1);
    assert_eq!(spans[0].source, Some(ChunkSource::Mic));
    assert_eq!(spans[1].source, Some(ChunkSource::Sys));
}

#[test]
fn custom_rename_carries_onto_unified_cluster() {
    let s1 = usess(
        "a",
        SessionMode::MicOnly,
        vec![mic(0, "hello from michael.")],
        0,
        0,
        vec![span(0, 1_200, "Michael", Some(ChunkSource::Mic))],
    );
    let s2 = usess(
        "b",
        SessionMode::MicOnly,
        vec![mic(500, "michael again in take two.")],
        8_000,
        0,
        vec![span(500, 2_000, "Speaker 2", Some(ChunkSource::Mic))],
    );
    let segs = vec![seg(0, 5_000, "spk_a"), seg(8_000, 12_000, "spk_a")];
    let out = run(&[s1, s2], &segs, &[], 0);
    assert!(out.notices.is_empty());
    assert_eq!(entries_of(&out.timelines[0].1)[0].0, "Michael");
    assert_eq!(entries_of(&out.timelines[1].1)[0].0, "Michael");
}

#[test]
fn custom_name_collision_keeps_longer_and_notices() {
    let s1 = usess(
        "a",
        SessionMode::MicOnly,
        vec![mic(0, "a long stretch of alice talking here.")],
        0,
        0,
        vec![span(0, 2_400, "Alice", Some(ChunkSource::Mic))],
    );
    let s2 = usess(
        "b",
        SessionMode::MicOnly,
        vec![mic(0, "short bob bit.")],
        10_000,
        0,
        vec![span(0, 1_000, "Bob", Some(ChunkSource::Mic))],
    );
    let segs = vec![seg(0, 15_000, "spk_a")];
    let out = run(&[s1, s2], &segs, &[], 0);
    assert_eq!(entries_of(&out.timelines[0].1)[0].0, "Alice");
    assert_eq!(entries_of(&out.timelines[1].1)[0].0, "Alice");
    assert_eq!(out.notices.len(), 1);
    assert!(out.notices[0].contains("Alice"), "{}", out.notices[0]);
    assert!(out.notices[0].contains("Bob"), "{}", out.notices[0]);
}

#[test]
fn you_label_does_not_rename_sys_clusters() {
    let s = usess(
        "a",
        SessionMode::Hybrid,
        vec![mic(0, "me talking over them."), sys(200, "remote person talking.")],
        0,
        0,
        vec![span(0, 2_000, "You", Some(ChunkSource::Mic)), span(200, 2_200, "Speaker 1", Some(ChunkSource::Sys))],
    );
    let sys_segs = vec![seg(0, 6_000, "spk_r")];
    let out = run(&[s], &[], &sys_segs, 0);
    let t = entries_of(&out.timelines[0].1);
    assert_eq!(t[0].0, "You");
    assert_eq!(t[1].0, "Speaker 1");
}

#[test]
fn same_source_guard_stops_cross_stream_rename_leak() {
    let s = usess(
        "a",
        SessionMode::Hybrid,
        vec![mic(0, "me the renamed user."), sys(100, "remote person here.")],
        0,
        0,
        vec![
            span(0, 2_000, "Michael", Some(ChunkSource::Mic)),
            span(100, 2_100, "Speaker 1", Some(ChunkSource::Sys)),
        ],
    );
    let sys_segs = vec![seg(0, 6_000, "spk_r")];
    let out = run(&[s], &[], &sys_segs, 0);
    let t = entries_of(&out.timelines[0].1);
    assert_eq!(t[0].0, "Michael");
    assert_eq!(t[1].0, "Speaker 1");
}

#[test]
fn sourceless_old_spans_still_carry_renames() {
    let s1 = usess(
        "a",
        SessionMode::MicOnly,
        vec![mic(0, "hello from wilma.")],
        0,
        0,
        vec![span(0, 1_200, "Wilma", None)],
    );
    let s2 = usess("b", SessionMode::MicOnly, vec![mic(0, "wilma again.")], 5_000, 0, Vec::new());
    let segs = vec![seg(0, 10_000, "spk_a")];
    let out = run(&[s1, s2], &segs, &[], 0);
    assert_eq!(entries_of(&out.timelines[0].1)[0].0, "Wilma");
    assert_eq!(entries_of(&out.timelines[1].1)[0].0, "Wilma");
}

#[test]
fn label_offset_bumps_generated_numbers_past_frozen() {
    let s1 = usess(
        "a",
        SessionMode::MicOnly,
        vec![mic(0, "voice one talking."), mic(6_000, "voice two talking.")],
        0,
        0,
        Vec::new(),
    );
    let s2 = usess("b", SessionMode::MicOnly, vec![mic(0, "voice one again.")], 10_000, 0, Vec::new());
    let segs = vec![seg(0, 5_000, "spk_a"), seg(6_000, 10_000, "spk_b"), seg(10_000, 14_000, "spk_a")];
    let out = run(&[s1, s2], &segs, &[], 2);
    let t1 = entries_of(&out.timelines[0].1);
    let t2 = entries_of(&out.timelines[1].1);
    assert_eq!(t1[0].0, "Speaker 3");
    assert_eq!(t1[1].0, "Speaker 4");
    assert_eq!(t2[0].0, "Speaker 3");
}

#[test]
fn rerun_with_own_output_is_identical() {
    let chunks1 = || vec![mic(0, "a long stretch of alice talking here.")];
    let chunks2 = || vec![mic(0, "short bob bit."), mic(4_000, "second voice appears.")];
    let segs = vec![seg(0, 12_000, "spk_a"), seg(14_000, 20_000, "spk_b")];
    let make = |old1: Vec<LabelSpan>, old2: Vec<LabelSpan>| {
        run(
            &[
                usess("a", SessionMode::MicOnly, chunks1(), 0, 0, old1),
                usess("b", SessionMode::MicOnly, chunks2(), 10_000, 0, old2),
            ],
            &segs,
            &[],
            0,
        )
    };
    let run1 = make(
        vec![span(0, 2_400, "Alice", Some(ChunkSource::Mic))],
        vec![span(0, 1_000, "Bob", Some(ChunkSource::Mic))],
    );
    assert_eq!(run1.notices.len(), 1);

    let run2 = make(spans_of(&run1.timelines[0].1), spans_of(&run1.timelines[1].1));
    assert_eq!(flat(&run1), flat(&run2));
    assert!(run2.notices.is_empty());

    let run3 = make(spans_of(&run2.timelines[0].1), spans_of(&run2.timelines[1].1));
    assert_eq!(flat(&run2), flat(&run3));
}

#[test]
fn rerun_without_customs_is_identical() {
    let chunks1 = || vec![mic(0, "voice one talking."), mic(6_000, "voice two talking.")];
    let chunks2 = || vec![mic(1_000, "voice one again.")];
    let segs = vec![seg(0, 5_000, "spk_a"), seg(6_000, 10_000, "spk_b"), seg(10_500, 15_000, "spk_a")];
    let make = |old1: Vec<LabelSpan>, old2: Vec<LabelSpan>| {
        run(
            &[
                usess("a", SessionMode::MicOnly, chunks1(), 0, 0, old1),
                usess("b", SessionMode::MicOnly, chunks2(), 10_000, 0, old2),
            ],
            &segs,
            &[],
            0,
        )
    };
    let run1 = make(Vec::new(), Vec::new());
    let run2 = make(spans_of(&run1.timelines[0].1), spans_of(&run1.timelines[1].1));
    assert_eq!(flat(&run1), flat(&run2));
    assert!(run2.notices.is_empty());
}

#[test]
fn unify_keeps_session_ids_in_manifest_order() {
    let s1 = usess("first", SessionMode::MicOnly, vec![mic(0, "one.")], 0, 0, Vec::new());
    let s2 = usess("second", SessionMode::SysOnly, vec![sys(0, "two.")], 0, 5_000, Vec::new());
    let out = run(&[s1, s2], &[seg(0, 4_000, "m")], &[seg(5_000, 9_000, "s")], 0);
    let ids: Vec<&str> = out.timelines.iter().map(|(id, _)| id.as_str()).collect();
    assert_eq!(ids, vec!["first", "second"]);
    assert_eq!(entries_of(&out.timelines[0].1)[0].0, "Speaker 1");
    assert_eq!(entries_of(&out.timelines[1].1)[0].0, "Speaker 2");
}

#[test]
fn concat_offsets_are_handed_out_to_the_sessions_that_captured_each_stream() {
    let modes = [SessionMode::MicOnly, SessionMode::SysOnly, SessionMode::Hybrid, SessionMode::MicOnly];
    let offs = session_offsets(&modes, &[0, 4_000, 9_000], &[0, 2_500]);
    assert_eq!(offs, vec![(0, 0), (0, 0), (4_000, 2_500), (9_000, 0)]);
    // A list that runs short leaves the rest at zero.
    assert_eq!(session_offsets(&modes, &[0], &[]), vec![(0, 0), (0, 0), (0, 0), (0, 0)]);
}

#[test]
fn the_note_head_count_hints_the_mic_only_without_system_audio() {
    assert_eq!(unify_mic_hint(Some(3), false), Some(3));
    assert_eq!(unify_mic_hint(Some(3), true), None);
    let mic_segs = vec![seg(0, 1_000, "a"), seg(1_000, 2_000, "b"), seg(2_000, 3_000, "a")];
    assert_eq!(unify_sys_hint(Some(5), true, &mic_segs), Some(3));
    assert_eq!(unify_sys_hint(Some(2), true, &mic_segs), Some(1));
    assert_eq!(unify_sys_hint(Some(4), true, &[]), Some(3));
    assert_eq!(unify_sys_hint(Some(4), false, &mic_segs), Some(4));
    assert_eq!(unify_sys_hint(None, true, &mic_segs), None);
}
