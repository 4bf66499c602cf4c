//! The single capture slot a live recording and an audio import share, and
//! what the post-stop diarize pass does with each stream's outcome.
use vstd::prelude::*;
use crate::sessions::SessionMode;
use crate::text::{chars_of, extend_chars, string_of};

verus! {

// ---------------------------------------------------------------------------
// The capture slot
// ---------------------------------------------------------------------------

/// What a recording or import asking for the capture slot finds.
#[derive(Debug, Clone, Copy, PartialEq, Eq, Structural)]
pub enum SlotDecision {
    /// Nothing holds the slot.
    Free,
    /// A capture is running: its process and its reader are both alive.
    Busy,
    /// A leftover of a capture that ended without being stopped (its
    /// process exited or its reader is gone): clear it, stop the process,
    /// and take the slot over.
    Reclaim,
}

/// The slot's state: free when nothing holds it; busy only when the
/// holder's process and reader are both alive; otherwise a stale leftover
/// to reclaim.
pub fn capture_slot(occupied: bool, child_alive: bool, reader_alive: bool) -> (r: SlotDecision)
    ensures
        r == (if !occupied {
            SlotDecision::Free
        } else if child_alive && reader_alive {
            SlotDecision::Busy
        } else {
            SlotDecision::Reclaim
        }),
{
    if !occupied {
        SlotDecision::Free
    } else if child_alive && reader_alive {
        SlotDecision::Busy
    } else {
        SlotDecision::Reclaim
    }
}

/// The refusal a busy slot gives: `already recording` to a recording,
/// `already recording or importing` to an import.
pub open spec fn busy_message(for_import: bool) -> Seq<char> {
    if for_import {
        "already recording or importing"@
    } else {
        "already recording"@
    }
}

/// Claim the slot for a recording (or, with `for_import`, an import): `Ok`
/// with whether a stale holder has to be cleared first, or the refusal when
/// a capture is running.
pub fn claim_capture_slot(occupied: bool, child_alive: bool, reader_alive: bool, for_import: bool) -> (r: Result<
    bool,
    String,
>)
    ensures
        r is Err <==> occupied && child_alive && reader_alive,
        r matches Ok(reclaim) ==> reclaim == occupied,
        r matches Err(e) ==> e@ == busy_message(for_import),
{
    match capture_slot(occupied, child_alive, reader_alive) {
        SlotDecision::Free => Ok(false),
        SlotDecision::Reclaim => Ok(true),
        SlotDecision::Busy => {
            if for_import {
                Err(string_of(&chars_of("already recording or importing")))
            } else {
                Err(string_of(&chars_of("already recording")))
            }
        },
    }
}

// ---------------------------------------------------------------------------
// Diarize outcomes
// ---------------------------------------------------------------------------

/// How diarizing one stream went.
#[derive(Debug)]
pub enum DiarizeOutcome {
    /// The stream's full audio file was never written.
    NoAudio,
    /// The diarizer failed with this message.
    Failed(String),
    /// It ran and found no segments.
    NoSegments,
    /// It found segments.
    Segments,
}

/// How the chunks of a recording get their labels after it stops.
#[derive(Debug, Clone, Copy, PartialEq, Eq, Structural)]
pub enum LabelPlan {
    /// No diarize model: every chunk is one piece without a label.
    Unlabelled,
    /// Every chunk is one piece labelled `Speaker 1`.
    SingleSpeaker,
    /// Words are split by the diarizer's segments.
    BySegments,
    /// A remote-call take: each stream split by its own segments (a mic
    /// without segments is `You`, a system stream without them the first
    /// unused speaker number).
    Hybrid,
}

/// The notice shown when the diarize model is not downloaded.
pub open spec fn model_missing_notice() -> Seq<char> {
    "Speaker diarization model isn't downloaded — transcript saved without speaker labels. Download it from Settings → Speaker diarization."@
}

/// The notice a single-stream outcome gives the user, if any.
pub open spec fn single_stream_notice(outcome: DiarizeOutcome) -> Option<Seq<char>> {
    match outcome {
        DiarizeOutcome::NoAudio => Some(
            "Diarization unavailable: the recording sidecar didn't write the full audio file. All speech grouped under Speaker 1."@,
        ),
        DiarizeOutcome::Failed(e) => Some(
            "Diarization failed ("@ + e@ + "); all speech grouped under Speaker 1."@,
        ),
        DiarizeOutcome::NoSegments => Some(
            "Diarization found no distinct speakers; all speech grouped under Speaker 1."@,
        ),
        DiarizeOutcome::Segments => None,
    }
}

/// The label plan and user notice after a recording ends, for a recording
/// that used one stream: without a model the chunks stay unlabelled (and the
/// user is told why); a missing audio file, a failed diarize or no segments
/// all fall back to one `Speaker 1`, each with its own notice; segments
/// split the words.
pub fn single_stream_plan(model_available: bool, outcome: &DiarizeOutcome) -> (r: (LabelPlan, Option<String>))
    ensures
        !model_available ==> r.0 == LabelPlan::Unlabelled && (r.1 matches Some(m) && m@ == model_missing_notice()),
        model_available ==> r.0 == (if outcome is Segments {
            LabelPlan::BySegments
        } else {
            LabelPlan::SingleSpeaker
        }) && match (r.1, single_stream_notice(*outcome)) {
            (Some(m), Some(n)) => m@ == n,
            (None, None) => true,
            _ => false,
        },
{
    if !model_available {
        return (
            LabelPlan::Unlabelled,
            Some(
                string_of(
                    &chars_of(
                        "Speaker diarization model isn't downloaded — transcript saved without speaker labels. Download it from Settings → Speaker diarization.",
                    ),
                ),
            ),
        );
    }
    match outcome {
        DiarizeOutcome::NoAudio => (
            LabelPlan::SingleSpeaker,
            Some(
                string_of(
                    &chars_of(
                        "Diarization unavailable: the recording sidecar didn't write the full audio file. All speech grouped under Speaker 1.",
                    ),
                ),
            ),
        ),
        DiarizeOutcome::Failed(e) => {
            let mut m = chars_of("Diarization failed (");
            extend_chars(&mut m, &chars_of(e.as_str()));
            extend_chars(&mut m, &chars_of("); all speech grouped under Speaker 1."));
            (LabelPlan::SingleSpeaker, Some(string_of(&m)))
        },
        DiarizeOutcome::NoSegments => (
            LabelPlan::SingleSpeaker,
            Some(string_of(&chars_of("Diarization found no distinct speakers; all speech grouped under Speaker 1."))),
        ),
        DiarizeOutcome::Segments => (LabelPlan::BySegments, None),
    }
}

/// The notice a hybrid recording's system-stream outcome gives: a missing
/// file or a failure groups the remote side under one speaker.
pub open spec fn remote_notice(outcome: DiarizeOutcome) -> Option<Seq<char>> {
    match outcome {
        DiarizeOutcome::NoAudio => Some(
            "Diarization unavailable for the remote side; remote speech grouped under one speaker."@,
        ),
        DiarizeOutcome::Failed(e) => Some(
            "Diarization failed for the remote side ("@ + e@ + "); remote speech grouped under one speaker."@,
        ),
        _ => None,
    }
}

/// An optional notice as a list of zero or one.
pub open spec fn notice_list(n: Option<Seq<char>>) -> Seq<Seq<char>> {
    match n {
        Some(x) => seq![x],
        None => Seq::<Seq<char>>::empty(),
    }
}

/// The notices of a hybrid take: the system stream's own notice, then, when
/// neither stream produced segments, that speech is grouped by audio source.
pub open spec fn hybrid_notice_list(sys_outcome: DiarizeOutcome, mic_found_segments: bool) -> Seq<Seq<char>> {
    notice_list(remote_notice(sys_outcome)) + if !(sys_outcome is Segments) && !mic_found_segments {
        seq!["Diarization found no distinct speakers; speech grouped by audio source."@]
    } else {
        Seq::<Seq<char>>::empty()
    }
}

/// What a hybrid recording's diarize tells the user: the system stream's
/// own notice, then, when neither stream produced segments, that speech is
/// grouped by audio source.
pub fn hybrid_notices(sys_outcome: &DiarizeOutcome, mic_found_segments: bool) -> (r: Vec<String>)
    ensures
        r@.map_values(|s: String| s@) == hybrid_notice_list(*sys_outcome, mic_found_segments),
{
    let mut out: Vec<String> = Vec::new();
    match sys_outcome {
        DiarizeOutcome::NoAudio => {
            out.push(
                string_of(
                    &chars_of("Diarization unavailable for the remote side; remote speech grouped under one speaker."),
                ),
            );
        },
        DiarizeOutcome::Failed(e) => {
            let mut m = chars_of("Diarization failed for the remote side (");
            extend_chars(&mut m, &chars_of(e.as_str()));
            extend_chars(&mut m, &chars_of("); remote speech grouped under one speaker."));
            out.push(string_of(&m));
        },
        _ => {},
    }
    let sys_found = match sys_outcome {
        DiarizeOutcome::Segments => true,
        _ => false,
    };
    if !sys_found && !mic_found_segments {
        out.push(string_of(&chars_of("Diarization found no distinct speakers; speech grouped by audio source.")));
    }
    assert(out@.map_values(|s: String| s@) =~= hybrid_notice_list(*sys_outcome, mic_found_segments));
    out
}

/// The label plan a take gets after it stops, given its capture mode, the
/// mic and system diarize outcomes, and whether the diarize model is there.
pub open spec fn post_stop(
    model_available: bool,
    mode: SessionMode,
    mic: DiarizeOutcome,
    sys: DiarizeOutcome,
) -> (LabelPlan, Seq<Seq<char>>) {
    if !model_available {
        (LabelPlan::Unlabelled, seq![model_missing_notice()])
    } else {
        match mode {
            SessionMode::MicOnly => (
                if mic is Segments {
                    LabelPlan::BySegments
                } else {
                    LabelPlan::SingleSpeaker
                },
                notice_list(single_stream_notice(mic)),
            ),
            SessionMode::SysOnly => (
                if sys is Segments {
                    LabelPlan::BySegments
                } else {
                    LabelPlan::SingleSpeaker
                },
                notice_list(single_stream_notice(sys)),
            ),
            SessionMode::Hybrid => (LabelPlan::Hybrid, hybrid_notice_list(sys, mic is Segments)),
        }
    }
}

/// What happens after a take stops, end to end: without the diarize model
/// every chunk stays unlabelled (with a notice); a mic-only or system-only
/// take follows its one stream's outcome (split by segments, or one
/// `Speaker 1` with the outcome's notice); a remote-call take splits each
/// stream by its own segments and reports the system side's trouble and a
/// run that found no speakers at all.
pub fn post_stop_plan(
    model_available: bool,
    mode: SessionMode,
    mic: &DiarizeOutcome,
    sys: &DiarizeOutcome,
) -> (r: (LabelPlan, Vec<String>))
    ensures
        (r.0, r.1@.map_values(|s: String| s@)) == post_stop(model_available, mode, *mic, *sys),
{
    let mut notices: Vec<String> = Vec::new();
    let plan = if !model_available || mode != SessionMode::Hybrid {
        let outcome = if mode == SessionMode::SysOnly {
            sys
        } else {
            mic
        };
        let (p, n) = single_stream_plan(model_available, outcome);
        match n {
            Some(m) => notices.push(m),
            None => {},
        }
        p
    } else {
        let mic_found = match mic {
            DiarizeOutcome::Segments => true,
            _ => false,
        };
        notices = hybrid_notices(sys, mic_found);
        LabelPlan::Hybrid
    };
    assert(notices@.map_values(|s: String| s@) =~= post_stop(model_available, mode, *mic, *sys).1);
    (plan, notices)
}

// ---------------------------------------------------------------------------
// Re-diarize refusals
// ---------------------------------------------------------------------------

/// Why re-diarizing a session's chunks cannot start, if it cannot: no
/// usable chunks (`mode` is `None`), or the one stream a single-stream
/// session used has no saved audio. A hybrid session always goes ahead.
pub open spec fn rediarize_refusal(mode: Option<SessionMode>, mic_wav: bool, sys_wav: bool) -> Option<Seq<char>> {
    match mode {
        None => Some("no usable chunks after dropping collapsed ones"@),
        Some(SessionMode::MicOnly) => if mic_wav {
            None
        } else {
            Some("mic chunks present but no saved mic.wav"@)
        },
        Some(SessionMode::SysOnly) => if sys_wav {
            None
        } else {
            Some("sys chunks present but no saved sys.wav"@)
        },
        Some(SessionMode::Hybrid) => None,
    }
}

/// Check that a re-diarize can start.
pub fn rediarize_precheck(mode: Option<SessionMode>, mic_wav: bool, sys_wav: bool) -> (r: Result<(), String>)
    ensures
        match (r, rediarize_refusal(mode, mic_wav, sys_wav)) {
            (Ok(()), None) => true,
            (Err(e), Some(m)) => e@ == m,
            _ => false,
        },
{
    match mode {
        None => Err(string_of(&chars_of("no usable chunks after dropping collapsed ones"))),
        Some(SessionMode::MicOnly) => if mic_wav {
            Ok(())
        } else {
            Err(string_of(&chars_of("mic chunks present but no saved mic.wav")))
        },
        Some(SessionMode::SysOnly) => if sys_wav {
            Ok(())
        } else {
            Err(string_of(&chars_of("sys chunks present but no saved sys.wav")))
        },
        Some(SessionMode::Hybrid) => Ok(()),
    }
}

/// After diarizing, a single-stream re-diarize that found no segments stops
/// (there is nothing to relabel with); a hybrid one goes on with its
/// fallback labels.
pub fn rediarize_segments_check(mode: SessionMode, found_segments: bool) -> (r: Result<(), String>)
    ensures
        r is Err <==> mode != SessionMode::Hybrid && !found_segments,
        r matches Err(e) ==> e@ == "diarize returned no segments"@,
{
    if !found_segments && mode != SessionMode::Hybrid {
        Err(string_of(&chars_of("diarize returned no segments")))
    } else {
        Ok(())
    }
}

} // verus!
