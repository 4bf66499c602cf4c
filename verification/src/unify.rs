//! The note-wide unify pass: every unifiable session's chunks relabelled from
//! one diarization of the concatenated audio, one speaker numbering across
//! the whole note, with the names the user gave carried onto the new labels.
use vstd::prelude::*;
use crate::diarize::{unified_split, unified_split_chunk};
use crate::labels::{
    finalise, finalise_stream_labels, lookup_pairs, nums_for, piece_views, seqs_of_strings, HybridLabels,
};
use crate::renames::{credits_fit, credits_fit_exec, custom_name_map, renames_ok};
use crate::sessions::{build_unified_display_map, unified_numbering, LabelSpan, SessionMode, UnifySession};
use crate::timeline::{record_view, timeline_records, timeline_spec, TimelineRecord};
use crate::transcript::{handed_in_order, split_results};
use crate::hints::{distinct_ids, distinct_speaker_count};
use crate::types::{ChunkRecord, ChunkSource, LabelledPiece, Segment};

verus! {

/// What the unify pass writes: each session's timeline records (manifest
/// order, session-local times) and a notice for each custom-name collision
/// it resolved.
#[derive(Debug)]
pub struct UnifyOutcome {
    pub timelines: Vec<(String, Vec<TimelineRecord>)>,
    pub notices: Vec<String>,
}

/// A timeline record as plain values.
pub type RecordView = (u64, u64, Seq<char>, Seq<char>, Seq<(Seq<char>, u64, u64)>, ChunkSource);

/// `You` may stand for the mic's one voice: some session captured the mic,
/// and every session that did was a remote-call (hybrid) take.
pub open spec fn allow_you(sessions: Seq<UnifySession>) -> bool {
    &&& exists|i: int| 0 <= i < sessions.len() && (#[trigger] sessions[i]).mode != SessionMode::SysOnly
    &&& forall|i: int|
        0 <= i < sessions.len() && (#[trigger] sessions[i]).mode != SessionMode::SysOnly
            ==> sessions[i].mode == SessionMode::Hybrid
}

/// The display labels of the pass: the note-wide first-encounter numbering
/// turned into labels (`You` where allowed and the mic has one voice).
pub open spec fn unify_labels_ok(
    sessions: Seq<UnifySession>,
    mic: Seq<Segment>,
    sys: Seq<Segment>,
    labels: HybridLabels,
) -> bool {
    let nb = unified_numbering(sessions, mic, sys);
    (labels.mic.pairs(), labels.sys.pairs(), labels.next_free as nat) == finalise(
        nums_for(nb, ChunkSource::Mic),
        nums_for(nb, ChunkSource::Sys),
        allow_you(sessions),
        nb.len() + 1,
    )
}

/// `recs` is the timeline of `sess` when each of its chunks is split by the
/// concatenated streams' segments at its shifted time, under `labels`.
pub open spec fn session_records_ok(
    sess: UnifySession,
    mic: Seq<Segment>,
    sys: Seq<Segment>,
    labels: HybridLabels,
    label_offset: u32,
    recs: Seq<RecordView>,
) -> bool {
    exists|handed: Seq<ChunkRecord>, outs: Seq<Vec<LabelledPiece>>|
        #![trigger handed_in_order(sess.chunks@, handed), timeline_spec(handed, outs, label_offset)]
        handed_in_order(sess.chunks@, handed) && outs.len() == handed.len() && (forall|j: int|
            0 <= j < outs.len() ==> piece_views((#[trigger] outs[j])@) == unified_split(
                handed[j],
                sess.mic_offset_ms,
                sess.sys_offset_ms,
                mic,
                sys,
                labels.mic,
                labels.sys,
            )) && recs == timeline_spec(handed, outs, label_offset)
}

/// The span a record claims for its label.
pub open spec fn span_matches(s: LabelSpan, r: RecordView) -> bool {
    &&& s.start_ms == r.0
    &&& s.end_ms == r.1
    &&& s.label@ == r.2
    &&& s.source == Some(r.5)
}

/// `news` holds, session by session, the spans of the records `pre`.
pub open spec fn spans_match(news: Seq<Vec<LabelSpan>>, pre: Seq<Seq<RecordView>>) -> bool {
    &&& news.len() == pre.len()
    &&& forall|i: int|
        0 <= i < news.len() ==> (#[trigger] news[i])@.len() == pre[i].len() && forall|j: int|
            0 <= j < pre[i].len() ==> span_matches(news[i]@[j], #[trigger] pre[i][j])
}

/// `olds` holds each session's spans from before the pass.
pub open spec fn olds_match(olds: Seq<Vec<LabelSpan>>, sessions: Seq<UnifySession>) -> bool {
    &&& olds.len() == sessions.len()
    &&& forall|i: int| 0 <= i < olds.len() ==> (#[trigger] olds[i])@ == sessions[i].old_spans@
}

/// A label after the carry-over: the name the map gives it, else itself.
pub open spec fn carried_label(label: Seq<char>, rm: Seq<(Seq<char>, Seq<char>)>) -> Seq<char> {
    match lookup_pairs(rm, label) {
        Some(n) => n,
        None => label,
    }
}

/// A record after the carry-over.
pub open spec fn carried(r: RecordView, rm: Seq<(Seq<char>, Seq<char>)>) -> RecordView {
    (r.0, r.1, carried_label(r.2, rm), r.3, r.4, r.5)
}

/// The records of one session timeline as plain values.
pub open spec fn record_views(rs: Seq<TimelineRecord>) -> Seq<RecordView> {
    rs.map_values(|r: TimelineRecord| record_view(r))
}

/// The session timelines the pass writes: each session's id with its
/// records carried over through `rm`.
pub open spec fn timelines_ok(
    out: Seq<(String, Vec<TimelineRecord>)>,
    sessions: Seq<UnifySession>,
    pre: Seq<Seq<RecordView>>,
    rm: Seq<(Seq<char>, Seq<char>)>,
) -> bool {
    &&& out.len() == sessions.len()
    &&& forall|i: int|
        0 <= i < out.len() ==> (#[trigger] out[i]).0@ == sessions[i].session_id@ && record_views(out[i].1@)
            == pre[i].map_values(|r: RecordView| carried(r, rm))
}

/// The whole outcome of the pass: the labels, each session's records `pre`
/// before the carry-over, their spans `news`, the old spans `olds`, and,
/// when every label's speech time with a name fits in a `u64`, the rename
/// map `rm` with its notices and the carried-over timelines.
pub open spec fn unify_result(
    sessions: Seq<UnifySession>,
    mic: Seq<Segment>,
    sys: Seq<Segment>,
    label_offset: u32,
    labels: HybridLabels,
    pre: Seq<Seq<RecordView>>,
    news: Seq<Vec<LabelSpan>>,
    olds: Seq<Vec<LabelSpan>>,
    rm: Seq<(Seq<char>, Seq<char>)>,
    r: Option<UnifyOutcome>,
) -> bool {
    &&& unify_labels_ok(sessions, mic, sys, labels)
    &&& pre.len() == sessions.len()
    &&& forall|i: int|
        0 <= i < pre.len() ==> session_records_ok(#[trigger] sessions[i], mic, sys, labels, label_offset, pre[i])
    &&& spans_match(news, pre)
    &&& olds_match(olds, sessions)
    &&& match r {
        None => !credits_fit(news, olds),
        Some(out) => {
            &&& credits_fit(news, olds)
            &&& renames_ok(news, olds, rm, seqs_of_strings(out.notices@))
            &&& timelines_ok(out.timelines@, sessions, pre, rm)
        },
    }
}

fn copy_span(s: &LabelSpan) -> (r: LabelSpan)
    ensures
        r == *s,
{
    LabelSpan { start_ms: s.start_ms, end_ms: s.end_ms, label: s.label.clone(), source: s.source }
}

fn copy_spans(v: &Vec<LabelSpan>) -> (r: Vec<LabelSpan>)
    ensures
        r@ == v@,
{
    let mut r: Vec<LabelSpan> = Vec::new();
    let mut i: usize = 0;
    while i < v.len()
        invariant
            i <= v.len(),
            r@ == v@.take(i as int),
        decreases v.len() - i,
    {
        r.push(copy_span(&v[i]));
        assert(v@.take(i + 1) =~= v@.take(i as int).push(v@[i as int]));
        i += 1;
    }
    assert(v@.take(v.len() as int) =~= v@);
    r
}

fn spans_of(recs: &Vec<TimelineRecord>) -> (r: Vec<LabelSpan>)
    ensures
        r@.len() == recs@.len(),
        forall|j: int| 0 <= j < recs@.len() ==> span_matches(r@[j], #[trigger] record_view(recs@[j])),
{
    let mut r: Vec<LabelSpan> = Vec::new();
    let mut i: usize = 0;
    while i < recs.len()
        invariant
            i <= recs.len(),
            r@.len() == i,
            forall|j: int| 0 <= j < i ==> span_matches(r@[j], #[trigger] record_view(recs@[j])),
        decreases recs.len() - i,
    {
        let x = &recs[i];
        r.push(LabelSpan { start_ms: x.start_ms, end_ms: x.end_ms, label: x.label.clone(), source: Some(x.source) });
        i += 1;
    }
    r
}

fn carry_over(recs: &mut Vec<TimelineRecord>, map: &crate::labels::LabelMap)
    ensures
        record_views(final(recs)@) == record_views(old(recs)@).map_values(|r: RecordView| carried(r, map.pairs())),
{
    let ghost orig = record_views(recs@);
    let mut j: usize = 0;
    while j < recs.len()
        invariant
            j <= recs.len(),
            recs@.len() == orig.len(),
            orig.len() == record_views(old(recs)@).len(),
            orig == record_views(old(recs)@),
            forall|k: int|
                0 <= k < recs@.len() ==> #[trigger] record_view(recs@[k]) == if k < j {
                    carried(orig[k], map.pairs())
                } else {
                    orig[k]
                },
        decreases recs.len() - j,
    {
        assert(record_view(recs@[j as int]) == orig[j as int]);
        let renamed = match map.get(recs[j].label.as_str()) {
            Some(n) => Some(n.clone()),
            None => None,
        };
        match renamed {
            Some(n) => {
                let ghost before = recs@;
                recs[j].label = n;
                proof {
                    assert forall|k: int| 0 <= k < recs@.len() && k != j implies recs@[k] == before[k] by {}
                }
            },
            None => {},
        }
        j += 1;
    }
    assert(record_views(recs@) =~= orig.map_values(|r: RecordView| carried(r, map.pairs())));
}

/// Relabel every unifiable session from one diarization of the note's
/// concatenated mic and system audio.
///
/// Speakers are numbered by first encounter over the whole note (sessions in
/// order, chunks in time order, each looked up at its time shifted by its
/// session's offset in the concatenated audio); `You` names the mic's voice
/// only when some session captured the mic, every such session was a
/// remote-call take, and the combined mic stream resolved to one voice.
/// Each session's timeline is rebuilt with those labels (bumped by
/// `label_offset` past frozen sessions' numbers), and every generated label
/// then takes the custom name that covered most of its speech time in the
/// session's old spans. `None` when some label's summed speech time with a
/// name does not fit in a `u64` of milliseconds.
pub fn unify_relabel(
    sessions: &[UnifySession],
    mic_segments: &[Segment],
    sys_segments: &[Segment],
    label_offset: u32,
) -> (r: Option<UnifyOutcome>)
    requires
        unified_numbering(sessions@, mic_segments@, sys_segments@).len() < u32::MAX,
    ensures
        exists|
            labels: HybridLabels,
            pre: Seq<Seq<RecordView>>,
            news: Seq<Vec<LabelSpan>>,
            olds: Seq<Vec<LabelSpan>>,
            rm: Seq<(Seq<char>, Seq<char>)>,
        |
            #![trigger unify_result(sessions@, mic_segments@, sys_segments@, label_offset, labels, pre, news, olds, rm, r)]
            unify_result(sessions@, mic_segments@, sys_segments@, label_offset, labels, pre, news, olds, rm, r),
{
    let (mic_nums, sys_nums, next) = build_unified_display_map(sessions, mic_segments, sys_segments);
    let ghost nb = unified_numbering(sessions@, mic_segments@, sys_segments@);
    let mut any_mic = false;
    let mut all_hybrid = true;
    let mut i: usize = 0;
    while i < sessions.len()
        invariant
            i <= sessions.len(),
            any_mic == exists|k: int| 0 <= k < i && (#[trigger] sessions@[k]).mode != SessionMode::SysOnly,
            all_hybrid == forall|k: int|
                0 <= k < i && (#[trigger] sessions@[k]).mode != SessionMode::SysOnly ==> sessions@[k].mode
                    == SessionMode::Hybrid,
        decreases sessions.len() - i,
    {
        if sessions[i].mode != SessionMode::SysOnly {
            any_mic = true;
            if sessions[i].mode != SessionMode::Hybrid {
                all_hybrid = false;
            }
        }
        i += 1;
    }
    let allow = any_mic && all_hybrid;
    assert(allow == allow_you(sessions@));
    proof {
        crate::labels::lemma_nums_for_len(nb, ChunkSource::Sys);
    }
    let labels = finalise_stream_labels(mic_nums, sys_nums, allow, next);
    assert(unify_labels_ok(sessions@, mic_segments@, sys_segments@, labels));

    let mut per: Vec<Vec<TimelineRecord>> = Vec::new();
    let mut news: Vec<Vec<LabelSpan>> = Vec::new();
    let ghost mut pre: Seq<Seq<RecordView>> = seq![];
    let mut s: usize = 0;
    while s < sessions.len()
        invariant
            s <= sessions.len(),
            unify_labels_ok(sessions@, mic_segments@, sys_segments@, labels),
            pre.len() == s,
            per@.len() == s,
            forall|k: int| 0 <= k < s ==> #[trigger] record_views(per@[k]@) == pre[k],
            forall|k: int|
                0 <= k < s ==> session_records_ok(
                    #[trigger] sessions@[k],
                    mic_segments@,
                    sys_segments@,
                    labels,
                    label_offset,
                    pre[k],
                ),
            spans_match(news@, pre),
        decreases sessions.len() - s,
    {
        let sess = &sessions[s];
        let mic_off = sess.mic_offset_ms;
        let sys_off = sess.sys_offset_ms;
        let mic_labels = &labels.mic;
        let sys_labels = &labels.sys;
        let split = |c: &ChunkRecord| -> (r: Vec<LabelledPiece>)
            ensures
                piece_views(r@) == unified_split(
                    *c,
                    mic_off,
                    sys_off,
                    mic_segments@,
                    sys_segments@,
                    *mic_labels,
                    *sys_labels,
                ),
            { unified_split_chunk(c, mic_off, sys_off, mic_segments, sys_segments, mic_labels, sys_labels) };
        let recs = timeline_records(&sess.chunks, &split, label_offset);
        let ghost rv = record_views(recs@);
        proof {
            let (handed, outs) = choose|handed: Seq<ChunkRecord>, outs: Seq<Vec<LabelledPiece>>|
                handed_in_order(sess.chunks@, handed) && split_results(split, handed, outs)
                    && recs@.map_values(|x: TimelineRecord| record_view(x)) == timeline_spec(
                    handed,
                    outs,
                    label_offset,
                );
            assert forall|j: int| 0 <= j < outs.len() implies piece_views((#[trigger] outs[j])@) == unified_split(
                handed[j],
                sess.mic_offset_ms,
                sess.sys_offset_ms,
                mic_segments@,
                sys_segments@,
                labels.mic,
                labels.sys,
            ) by {
                assert(call_ensures(split, (&handed[j],), outs[j]));
            }
            assert(rv == timeline_spec(handed, outs, label_offset));
            assert(session_records_ok(*sess, mic_segments@, sys_segments@, labels, label_offset, rv));
        }
        let spans = spans_of(&recs);
        proof {
            assert forall|j: int| 0 <= j < rv.len() implies span_matches(spans@[j], #[trigger] rv[j]) by {
                assert(rv[j] == record_view(recs@[j]));
            }
        }
        let ghost old_news = news@;
        let ghost old_pre = pre;
        news.push(spans);
        per.push(recs);
        proof {
            pre = pre.push(rv);
            assert forall|k: int| 0 <= k < news@.len() implies (#[trigger] news@[k])@.len() == pre[k].len() && forall|j: int|
                0 <= j < pre[k].len() ==> span_matches(news@[k]@[j], #[trigger] pre[k][j]) by {
                if k < s {
                    assert(news@[k] == old_news[k]);
                    assert(pre[k] == old_pre[k]);
                }
            }
            assert forall|k: int| 0 <= k < s + 1 implies #[trigger] record_views(per@[k]@) == pre[k] by {
                if k < s {
                    assert(pre[k] == old_pre[k]);
                }
            }
        }
        s += 1;
    }
    let mut olds: Vec<Vec<LabelSpan>> = Vec::new();
    let mut s: usize = 0;
    while s < sessions.len()
        invariant
            s <= sessions.len(),
            olds@.len() == s,
            forall|k: int| 0 <= k < s ==> (#[trigger] olds@[k])@ == sessions@[k].old_spans@,
        decreases sessions.len() - s,
    {
        olds.push(copy_spans(&sessions[s].old_spans));
        s += 1;
    }
    assert(olds_match(olds@, sessions@));
    assert(spans_match(news@, pre));
    assert(forall|i: int|
        0 <= i < pre.len() ==> session_records_ok(
            #[trigger] sessions@[i],
            mic_segments@,
            sys_segments@,
            labels,
            label_offset,
            pre[i],
        ));
    if !credits_fit_exec(news.as_slice(), olds.as_slice()) {
        let res: Option<UnifyOutcome> = None;
        assert(unify_result(
            sessions@,
            mic_segments@,
            sys_segments@,
            label_offset,
            labels,
            pre,
            news@,
            olds@,
            seq![],
            res,
        ));
        return res;
    }
    let (map, notices) = custom_name_map(news.as_slice(), olds.as_slice());
    let mut timelines: Vec<(String, Vec<TimelineRecord>)> = Vec::new();
    let mut rest = per;
    let ghost all = pre;
    let mut s: usize = 0;
    while s < sessions.len()
        invariant
            s <= sessions.len(),
            rest@.len() == sessions.len() - s,
            all.len() == sessions.len(),
            forall|k: int| 0 <= k < rest@.len() ==> #[trigger] record_views(rest@[k]@) == all[s + k],
            timelines@.len() == s,
            forall|k: int|
                0 <= k < s ==> (#[trigger] timelines@[k]).0@ == sessions@[k].session_id@ && record_views(
                    timelines@[k].1@,
                ) == all[k].map_values(|r: RecordView| carried(r, map.pairs())),
        decreases sessions.len() - s,
    {
        let ghost before = rest@;
        let mut recs = rest.remove(0);
        proof {
            assert(record_views(recs@) == all[s as int]);
            assert forall|k: int| 0 <= k < rest@.len() implies #[trigger] record_views(rest@[k]@) == all[s + 1 + k] by {
                assert(rest@[k] == before[k + 1]);
            }
        }
        carry_over(&mut recs, &map);
        timelines.push((sessions[s].session_id.clone(), recs));
        s += 1;
    }
    let r = UnifyOutcome { timelines, notices };
    let res = Some(r);
    assert(unify_result(
        sessions@,
        mic_segments@,
        sys_segments@,
        label_offset,
        labels,
        pre,
        news@,
        olds@,
        map.pairs(),
        res,
    ));
    res
}

// ---------------------------------------------------------------------------
// Setting the pass up
// ---------------------------------------------------------------------------

/// How many of the first `i` sessions captured the stream `mic` (the mic
/// when true, the system audio otherwise).
pub open spec fn rank_in_stream(modes: Seq<SessionMode>, i: int, mic: bool) -> nat
    decreases i,
{
    if i <= 0 {
        0
    } else {
        rank_in_stream(modes, i - 1, mic) + if captures(modes[i - 1], mic) {
            1nat
        } else {
            0nat
        }
    }
}

/// Whether a session in `mode` captured the mic (`mic`) or the system audio.
pub open spec fn captures(mode: SessionMode, mic: bool) -> bool {
    if mic {
        mode != SessionMode::SysOnly
    } else {
        mode != SessionMode::MicOnly
    }
}

/// The offset of session `i` inside one stream's concatenated audio: the
/// stream's offsets are handed out in session order to the sessions that
/// captured it; a session that did not (or one past the list) gets 0.
pub open spec fn stream_offset(modes: Seq<SessionMode>, offsets: Seq<u64>, i: int, mic: bool) -> u64 {
    let k = rank_in_stream(modes, i, mic);
    if captures(modes[i], mic) && k < offsets.len() {
        offsets[k as int]
    } else {
        0
    }
}

/// Each session's `(mic, system)` start offsets inside the concatenated
/// audio, given the sessions' modes in manifest order and each stream's
/// offsets in the order its audio was concatenated.
pub fn session_offsets(modes: &[SessionMode], mic_offsets: &[u64], sys_offsets: &[u64]) -> (r: Vec<(u64, u64)>)
    ensures
        r@.len() == modes@.len(),
        forall|i: int|
            0 <= i < r@.len() ==> #[trigger] r@[i] == (
                stream_offset(modes@, mic_offsets@, i, true),
                stream_offset(modes@, sys_offsets@, i, false),
            ),
{
    let mut r: Vec<(u64, u64)> = Vec::new();
    let mut mi: usize = 0;
    let mut si: usize = 0;
    let mut i: usize = 0;
    while i < modes.len()
        invariant
            i <= modes.len(),
            r@.len() == i,
            mi == rank_in_stream(modes@, i as int, true),
            si == rank_in_stream(modes@, i as int, false),
            mi <= i,
            si <= i,
            forall|k: int|
                0 <= k < i ==> #[trigger] r@[k] == (
                    stream_offset(modes@, mic_offsets@, k, true),
                    stream_offset(modes@, sys_offsets@, k, false),
                ),
        decreases modes.len() - i,
    {
        let mode = modes[i];
        let mic = if mode != SessionMode::SysOnly {
            let o = if mi < mic_offsets.len() {
                mic_offsets[mi]
            } else {
                0
            };
            mi += 1;
            o
        } else {
            0
        };
        let sys = if mode != SessionMode::MicOnly {
            let o = if si < sys_offsets.len() {
                sys_offsets[si]
            } else {
                0
            };
            si += 1;
            o
        } else {
            0
        };
        r.push((mic, sys));
        i += 1;
    }
    r
}

/// The mic's speaker-count hint in the note-wide pass: the note's expected
/// count when no session captured system audio, none otherwise (the total
/// cannot be split between the streams beforehand).
pub fn unify_mic_hint(expected_speakers: Option<i64>, any_sys: bool) -> (r: Option<i64>)
    ensures
        r == if any_sys {
            None
        } else {
            expected_speakers
        },
{
    if any_sys {
        None
    } else {
        expected_speakers
    }
}

/// The voices the mic's segments account for, at least one.
pub open spec fn mic_voices(mic: Seq<Segment>) -> int {
    let d = distinct_ids(mic).len();
    if d >= 1 {
        d as int
    } else {
        1
    }
}

/// The system stream's speaker-count hint in the note-wide pass: the note's
/// expected count when no session captured the mic; otherwise what the mic's
/// voices (at least one) leave of it, at least one.
pub fn unify_sys_hint(expected_speakers: Option<i64>, any_mic: bool, mic_segments: &[Segment]) -> (r: Option<i64>)
    requires
        distinct_ids(mic_segments@).len() <= i64::MAX,
        expected_speakers matches Some(n) ==> n - mic_voices(mic_segments@) >= i64::MIN,
    ensures
        r == if !any_mic {
            expected_speakers
        } else {
            match expected_speakers {
                Some(n) => Some(
                    if n - mic_voices(mic_segments@) >= 1 {
                        (n - mic_voices(mic_segments@)) as i64
                    } else {
                        1
                    },
                ),
                None => None::<i64>,
            }
        },
{
    if !any_mic {
        return expected_speakers;
    }
    match expected_speakers {
        Some(n) => {
            let d = distinct_speaker_count(mic_segments) as i64;
            let v: i64 = if d >= 1 {
                d
            } else {
                1
            };
            let m = n - v;
            Some(if m >= 1 {
                m
            } else {
                1
            })
        },
        None => None,
    }
}

} // verus!
