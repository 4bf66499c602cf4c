//! Recording sessions of one note: which streams a take covers, whether it
//! can join the cross-session unify pass, where each take sits in the
//! concatenated audio, and the note-wide speaker numbering of that pass.
use vstd::prelude::*;
use crate::types::{ChunkRecord, ChunkSource, ChunkWord, Segment};
use crate::labels::{
    assign_index, assigned, chrono, chrono_indices, chrono_order, first_occ, ids_at,
    lemma_first_occ_no_dups, sat_add, sat_sub, seqs_of_strings, stream_segs, word_abs,
    word_abs_exec, NumberMap, nums_for,
};
use crate::speakers::{parse_u32, parse_u32_chars, speaker_prefix};
use crate::text::{chars_of, slice_sub, starts_with_chars, string_of};

verus! {

// ---------------------------------------------------------------------------
// Streams and modes
// ---------------------------------------------------------------------------

/// Some chunk came from stream `src`.
pub open spec fn has_source(chunks: Seq<ChunkRecord>, src: ChunkSource) -> bool {
    exists|i: int| 0 <= i < chunks.len() && (#[trigger] chunks[i]).source == src
}

fn has_source_exec(chunks: &[ChunkRecord], src: ChunkSource) -> (b: bool)
    ensures
        b == has_source(chunks@, src),
{
    let mut i: usize = 0;
    while i < chunks.len()
        invariant
            i <= chunks.len(),
            forall|j: int| 0 <= j < i ==> chunks@[j].source != src,
        decreases chunks.len() - i,
    {
        if chunks[i].source == src {
            return true;
        }
        i += 1;
    }
    false
}

/// `mic`.
pub open spec fn mic_name() -> Seq<char> {
    seq!['m', 'i', 'c']
}

/// `sys`.
pub open spec fn sys_name() -> Seq<char> {
    seq!['s', 'y', 's']
}

/// Which streams produced chunks in a capture: `mic` first, then `sys`, each
/// present when some chunk came from it.
pub fn session_streams(chunks: &[ChunkRecord]) -> (r: Vec<String>)
    ensures
        seqs_of_strings(r@) == (if has_source(chunks@, ChunkSource::Mic) {
            seq![mic_name()]
        } else {
            seq![]
        }) + (if has_source(chunks@, ChunkSource::Sys) {
            seq![sys_name()]
        } else {
            seq![]
        }),
{
    let mut out: Vec<String> = Vec::new();
    if has_source_exec(chunks, ChunkSource::Mic) {
        let v: Vec<char> = vec!['m', 'i', 'c'];
        out.push(string_of(&v));
    }
    if has_source_exec(chunks, ChunkSource::Sys) {
        let v: Vec<char> = vec!['s', 'y', 's'];
        out.push(string_of(&v));
    }
    assert(seqs_of_strings(out@) =~= (if has_source(chunks@, ChunkSource::Mic) {
        seq![mic_name()]
    } else {
        seq![]
    }) + (if has_source(chunks@, ChunkSource::Sys) {
        seq![sys_name()]
    } else {
        seq![]
    }));
    out
}

/// Which streams a session's chunks cover.
#[derive(Clone, Copy, Debug, PartialEq, Eq, Structural)]
pub enum SessionMode {
    MicOnly,
    SysOnly,
    Hybrid,
}

/// Classify a session's chunk log; `None` when it recorded nothing.
pub fn session_mode(chunks: &[ChunkRecord]) -> (r: Option<SessionMode>)
    ensures
        ({
            let mic = has_source(chunks@, ChunkSource::Mic);
            let sys = has_source(chunks@, ChunkSource::Sys);
            r == (if mic && sys {
                Some(SessionMode::Hybrid)
            } else if mic {
                Some(SessionMode::MicOnly)
            } else if sys {
                Some(SessionMode::SysOnly)
            } else {
                None
            })
        }),
{
    let mic = has_source_exec(chunks, ChunkSource::Mic);
    let sys = has_source_exec(chunks, ChunkSource::Sys);
    if mic && sys {
        Some(SessionMode::Hybrid)
    } else if mic {
        Some(SessionMode::MicOnly)
    } else if sys {
        Some(SessionMode::SysOnly)
    } else {
        None
    }
}

/// Whether a session can join the concatenated unify pass: it needs the WAV
/// of every stream that will be diarized (both, for a hybrid session).
pub fn session_unifiable(mode: SessionMode, has_mic_wav: bool, has_sys_wav: bool) -> (b: bool)
    ensures
        b == match mode {
            SessionMode::MicOnly => has_mic_wav,
            SessionMode::SysOnly => has_sys_wav,
            SessionMode::Hybrid => has_mic_wav && has_sys_wav,
        },
{
    match mode {
        SessionMode::MicOnly => has_mic_wav,
        SessionMode::SysOnly => has_sys_wav,
        SessionMode::Hybrid => has_mic_wav && has_sys_wav,
    }
}

// ---------------------------------------------------------------------------
// Concatenation offsets
// ---------------------------------------------------------------------------

/// Sum of the first `n` sample counts.
pub open spec fn samples_before(counts: Seq<usize>, n: int) -> int
    decreases n,
{
    if n <= 0 {
        0
    } else {
        samples_before(counts, n - 1) + counts[n - 1]
    }
}

pub proof fn lemma_samples_before_mono(counts: Seq<usize>, a: int, b: int)
    requires
        0 <= a <= b <= counts.len(),
    ensures
        0 <= samples_before(counts, a) <= samples_before(counts, b),
    decreases b,
{
    if a < b {
        lemma_samples_before_mono(counts, a, b - 1);
    } else if b > 0 {
        lemma_samples_before_mono(counts, b - 1, b - 1);
    }
}

/// Millisecond start of each input inside a concatenation, from sample
/// counts at 16 kHz (16 samples per ms): the samples of all earlier inputs,
/// divided by 16 and rounded down.
pub fn concat_offsets_ms(sample_counts: &[usize]) -> (r: Vec<u64>)
    requires
        samples_before(sample_counts@, sample_counts@.len() as int) <= u64::MAX,
    ensures
        r.len() == sample_counts.len(),
        forall|i: int|
            0 <= i < r.len() ==> #[trigger] r@[i] == samples_before(sample_counts@, i) / 16,
{
    let mut out: Vec<u64> = Vec::new();
    let mut acc: u64 = 0;
    let mut i: usize = 0;
    while i < sample_counts.len()
        invariant
            i <= sample_counts.len(),
            out.len() == i,
            acc == samples_before(sample_counts@, i as int),
            samples_before(sample_counts@, sample_counts@.len() as int) <= u64::MAX,
            forall|j: int| 0 <= j < i ==> #[trigger] out@[j] == samples_before(sample_counts@, j) / 16,
        decreases sample_counts.len() - i,
    {
        out.push(acc / 16);
        proof {
            lemma_samples_before_mono(sample_counts@, i + 1, sample_counts@.len() as int);
        }
        acc = acc + sample_counts[i] as u64;
        i += 1;
    }
    out
}

// ---------------------------------------------------------------------------
// Label spans
// ---------------------------------------------------------------------------

/// One timeline entry's label and time span, with its stream when the entry
/// records one.
#[derive(Debug)]
pub struct LabelSpan {
    pub start_ms: u64,
    pub end_ms: u64,
    pub label: String,
    pub source: Option<ChunkSource>,
}

/// Overlap in ms of `[a_start, a_end)` and `[b_start, b_end)`; 0 when disjoint.
pub open spec fn overlap_ms(a_start: u64, a_end: u64, b_start: u64, b_end: u64) -> u64 {
    let start = if a_start >= b_start { a_start } else { b_start };
    let end = if a_end <= b_end { a_end } else { b_end };
    sat_sub(end, start)
}

/// Overlap between two spans in ms; 0 when disjoint.
pub fn spans_overlap_ms(a: &LabelSpan, b: &LabelSpan) -> (t: u64)
    ensures
        t == overlap_ms(a.start_ms, a.end_ms, b.start_ms, b.end_ms),
{
    let start = if a.start_ms >= b.start_ms {
        a.start_ms
    } else {
        b.start_ms
    };
    let end = if a.end_ms <= b.end_ms {
        a.end_ms
    } else {
        b.end_ms
    };
    end.saturating_sub(start)
}

/// The number a timeline label carries as `Speaker <n>` (`n` read as a
/// `u32` the way `str::parse` reads it), if it is one.
pub open spec fn timeline_label_number(label: Seq<char>) -> Option<u32> {
    if speaker_prefix().is_prefix_of(label) {
        parse_u32(label.skip(8))
    } else {
        None
    }
}

/// Highest number among `labels` of the form `Speaker <n>`, 0 when none.
pub open spec fn max_label_number(labels: Seq<Seq<char>>) -> u32
    decreases labels.len(),
{
    if labels.len() == 0 {
        0
    } else {
        let m = max_label_number(labels.drop_last());
        match timeline_label_number(labels.last()) {
            Some(n) => if n > m {
                n
            } else {
                m
            },
            None => m,
        }
    }
}

/// Highest exact `Speaker N` label among a session timeline's labels, 0 when
/// there is none.
pub fn max_speaker_in_timeline(labels: &[String]) -> (m: u32)
    ensures
        m == max_label_number(seqs_of_strings(labels@)),
{
    let ghost ls = seqs_of_strings(labels@);
    let prefix: Vec<char> = vec!['S', 'p', 'e', 'a', 'k', 'e', 'r', ' '];
    assert(prefix@ =~= speaker_prefix());
    let mut m: u32 = 0;
    let mut i: usize = 0;
    while i < labels.len()
        invariant
            i <= labels.len(),
            ls == seqs_of_strings(labels@),
            prefix@ == speaker_prefix(),
            m == max_label_number(ls.take(i as int)),
        decreases labels.len() - i,
    {
        assert(ls.take(i + 1).drop_last() =~= ls.take(i as int));
        assert(ls.take(i + 1).last() == labels@[i as int]@);
        let v = chars_of(labels[i].as_str());
        if starts_with_chars(&v, &prefix) {
            let rest = slice_sub(&v, 8, v.len());
            assert(rest@ =~= v@.skip(8));
            match parse_u32_chars(&rest) {
                Some(n) => {
                    if n > m {
                        m = n;
                    }
                },
                None => {},
            }
        }
        i += 1;
    }
    assert(ls.take(labels.len() as int) =~= ls);
    m
}

// ---------------------------------------------------------------------------
// Note-wide numbering
// ---------------------------------------------------------------------------

/// One session's input to the unified relabel pass.
#[derive(Debug)]
pub struct UnifySession {
    pub session_id: String,
    pub mode: SessionMode,
    /// Chunk log with session-local times.
    pub chunks: Vec<ChunkRecord>,
    /// The session's start inside the concatenated mic and system audio.
    pub mic_offset_ms: u64,
    pub sys_offset_ms: u64,
    /// The labels on disk before the rewrite.
    pub old_spans: Vec<LabelSpan>,
}

/// The moments a chunk is looked up at in concatenated time: its start (or
/// every word's midpoint) shifted by `off`.
pub open spec fn shifted_times(c: ChunkRecord, off: u64) -> Seq<u64> {
    if c.words@.len() == 0 {
        seq![sat_add(c.start_ms, off)]
    } else {
        c.words@.map_values(|w: ChunkWord| sat_add(word_abs(c.start_ms, w), off))
    }
}

/// The (stream, speaker id) pairs one chunk of a session reaches.
pub open spec fn session_chunk_events(
    c: ChunkRecord,
    mic_off: u64,
    sys_off: u64,
    mic: Seq<Segment>,
    sys: Seq<Segment>,
) -> Seq<(ChunkSource, Seq<char>)> {
    let off = match c.source {
        ChunkSource::Mic => mic_off,
        ChunkSource::Sys => sys_off,
    };
    ids_at(stream_segs(c.source, mic, sys), shifted_times(c, off)).map_values(
        |id: Seq<char>| (c.source, id),
    )
}

/// The pairs a session's chunks reach, in the given chunk order.
pub open spec fn session_events(
    cs: Seq<ChunkRecord>,
    mic_off: u64,
    sys_off: u64,
    mic: Seq<Segment>,
    sys: Seq<Segment>,
) -> Seq<(ChunkSource, Seq<char>)>
    decreases cs.len(),
{
    if cs.len() == 0 {
        seq![]
    } else {
        session_events(cs.drop_last(), mic_off, sys_off, mic, sys) + session_chunk_events(
            cs.last(),
            mic_off,
            sys_off,
            mic,
            sys,
        )
    }
}

/// The pairs all sessions reach: sessions in order, each session's chunks in
/// `(start_ms, source)` order.
pub open spec fn unified_events(sessions: Seq<UnifySession>, mic: Seq<Segment>, sys: Seq<Segment>) -> Seq<
    (ChunkSource, Seq<char>),
>
    decreases sessions.len(),
{
    if sessions.len() == 0 {
        seq![]
    } else {
        let s = sessions.last();
        unified_events(sessions.drop_last(), mic, sys) + session_events(
            chrono(s.chunks@),
            s.mic_offset_ms,
            s.sys_offset_ms,
            mic,
            sys,
        )
    }
}

/// Numbering order of the whole note: every (stream, id) pair in the order
/// the walk first reaches it.
pub open spec fn unified_numbering(sessions: Seq<UnifySession>, mic: Seq<Segment>, sys: Seq<Segment>) -> Seq<
    (ChunkSource, Seq<char>),
> {
    first_occ(unified_events(sessions, mic, sys))
}

proof fn lemma_session_events_prefix(
    cs: Seq<ChunkRecord>,
    k: int,
    mic_off: u64,
    sys_off: u64,
    mic: Seq<Segment>,
    sys: Seq<Segment>,
)
    requires
        0 <= k <= cs.len(),
    ensures
        session_events(cs.take(k), mic_off, sys_off, mic, sys).is_prefix_of(
            session_events(cs, mic_off, sys_off, mic, sys),
        ),
    decreases cs.len() - k,
{
    if k < cs.len() {
        assert(cs.drop_last().take(k) =~= cs.take(k));
        lemma_session_events_prefix(cs.drop_last(), k, mic_off, sys_off, mic, sys);
    } else {
        assert(cs.take(k) =~= cs);
    }
}

proof fn lemma_unified_events_prefix(
    ss: Seq<UnifySession>,
    k: int,
    mic: Seq<Segment>,
    sys: Seq<Segment>,
)
    requires
        0 <= k <= ss.len(),
    ensures
        unified_events(ss.take(k), mic, sys).is_prefix_of(unified_events(ss, mic, sys)),
    decreases ss.len() - k,
{
    if k < ss.len() {
        assert(ss.drop_last().take(k) =~= ss.take(k));
        lemma_unified_events_prefix(ss.drop_last(), k, mic, sys);
    } else {
        assert(ss.take(k) =~= ss);
    }
}

proof fn lemma_prefix_first_occ<T>(a: Seq<T>, b: Seq<T>)
    requires
        a.is_prefix_of(b),
    ensures
        first_occ(a).len() <= first_occ(b).len(),
{
    assert(b.take(a.len() as int) =~= a);
    crate::labels::lemma_first_occ_prefix_len(b, a.len() as int);
}

/// Apply the events of one chunk (shifted by `off`) to the running numbering.
fn number_chunk(
    mic_map: &mut NumberMap,
    sys_map: &mut NumberMap,
    next: &mut u32,
    chunk: &ChunkRecord,
    mic_off: u64,
    sys_off: u64,
    mic_segments: &[Segment],
    sys_segments: &[Segment],
    Ghost(base): Ghost<Seq<(ChunkSource, Seq<char>)>>,
)
    requires
        old(mic_map).pairs() == nums_for(first_occ(base), ChunkSource::Mic),
        old(sys_map).pairs() == nums_for(first_occ(base), ChunkSource::Sys),
        *old(next) == first_occ(base).len() + 1,
        first_occ(
            base + session_chunk_events(*chunk, mic_off, sys_off, mic_segments@, sys_segments@),
        ).len() < u32::MAX,
    ensures
        ({
            let all = base + session_chunk_events(
                *chunk,
                mic_off,
                sys_off,
                mic_segments@,
                sys_segments@,
            );
            &&& final(mic_map).pairs() == nums_for(first_occ(all), ChunkSource::Mic)
            &&& final(sys_map).pairs() == nums_for(first_occ(all), ChunkSource::Sys)
            &&& *final(next) == first_occ(all).len() + 1
        }),
{
    let ghost ce = session_chunk_events(*chunk, mic_off, sys_off, mic_segments@, sys_segments@);
    let (segs, off): (&[Segment], u64) = match chunk.source {
        ChunkSource::Mic => (mic_segments, mic_off),
        ChunkSource::Sys => (sys_segments, sys_off),
    };
    assert(segs@ == stream_segs(chunk.source, mic_segments@, sys_segments@));
    if segs.len() == 0 {
        assert(ce =~= Seq::<(ChunkSource, Seq<char>)>::empty());
        assert(base + ce =~= base);
    } else if chunk.words.len() == 0 {
        let t = chunk.start_ms.saturating_add(off);
        let i = assign_index(t, segs).unwrap();
        assert(ce =~= seq![(chunk.source, segs@[i as int].speaker_id@)]);
        assert(base + ce =~= base.push((chunk.source, segs@[i as int].speaker_id@)));
        crate::labels::hybrid_event(
            mic_map,
            sys_map,
            next,
            chunk.source,
            &segs[i].speaker_id,
            Ghost(base),
        );
    } else {
        let mut wi: usize = 0;
        assert(base + ce.take(0) =~= base);
        while wi < chunk.words.len()
            invariant
                wi <= chunk.words.len(),
                segs.len() > 0,
                segs@ == stream_segs(chunk.source, mic_segments@, sys_segments@),
                off == (match chunk.source {
                    ChunkSource::Mic => mic_off,
                    ChunkSource::Sys => sys_off,
                }),
                chunk.words.len() > 0,
                ce == session_chunk_events(*chunk, mic_off, sys_off, mic_segments@, sys_segments@),
                ce.len() == chunk.words.len(),
                first_occ(base + ce).len() < u32::MAX,
                mic_map.pairs() == nums_for(first_occ(base + ce.take(wi as int)), ChunkSource::Mic),
                sys_map.pairs() == nums_for(first_occ(base + ce.take(wi as int)), ChunkSource::Sys),
                *next == first_occ(base + ce.take(wi as int)).len() + 1,
            decreases chunk.words.len() - wi,
        {
            let t = word_abs_exec(chunk.start_ms, &chunk.words[wi]).saturating_add(off);
            let i = assign_index(t, segs).unwrap();
            let ghost e = (chunk.source, segs@[i as int].speaker_id@);
            assert(ce[wi as int] == e);
            assert(base + ce.take(wi + 1) =~= (base + ce.take(wi as int)).push(e));
            proof {
                crate::labels::lemma_first_occ_prefix_len(base + ce, base.len() + wi + 1);
                assert((base + ce).take(base.len() + wi + 1) =~= base + ce.take(wi + 1));
            }
            crate::labels::hybrid_event(
                mic_map,
                sys_map,
                next,
                chunk.source,
                &segs[i].speaker_id,
                Ghost(base + ce.take(wi as int)),
            );
            wi += 1;
        }
        assert(ce.take(wi as int) =~= ce);
    }
}

/// First-encounter speaker numbering over the whole note, one counter shared
/// by both streams: sessions in order, each session's chunks in `(start_ms,
/// source)` order, each chunk (or each word midpoint) looked up against its
/// stream's segments after shifting by the session's concat offset. Returns
/// the mic and system numberings and the first number not handed out.
pub fn build_unified_display_map(
    sessions: &[UnifySession],
    mic_segments: &[Segment],
    sys_segments: &[Segment],
) -> (r: (NumberMap, NumberMap, u32))
    requires
        unified_numbering(sessions@, mic_segments@, sys_segments@).len() < u32::MAX,
    ensures
        ({
            let nb = unified_numbering(sessions@, mic_segments@, sys_segments@);
            &&& r.0.pairs() == nums_for(nb, ChunkSource::Mic)
            &&& r.1.pairs() == nums_for(nb, ChunkSource::Sys)
            &&& r.2 == nb.len() + 1
        }),
{
    let ghost total = unified_events(sessions@, mic_segments@, sys_segments@);
    let mut mic_map = NumberMap { entries: Vec::new() };
    let mut sys_map = NumberMap { entries: Vec::new() };
    let mut next: u32 = 1;
    assert(mic_map.pairs() =~= Seq::<(Seq<char>, nat)>::empty());
    assert(sys_map.pairs() =~= Seq::<(Seq<char>, nat)>::empty());
    assert(sessions@.take(0) =~= Seq::<UnifySession>::empty());
    let mut si: usize = 0;
    while si < sessions.len()
        invariant
            si <= sessions.len(),
            total == unified_events(sessions@, mic_segments@, sys_segments@),
            first_occ(total).len() < u32::MAX,
            mic_map.pairs() == nums_for(
                first_occ(unified_events(sessions@.take(si as int), mic_segments@, sys_segments@)),
                ChunkSource::Mic,
            ),
            sys_map.pairs() == nums_for(
                first_occ(unified_events(sessions@.take(si as int), mic_segments@, sys_segments@)),
                ChunkSource::Sys,
            ),
            next == first_occ(
                unified_events(sessions@.take(si as int), mic_segments@, sys_segments@),
            ).len() + 1,
        decreases sessions.len() - si,
    {
        let sess = &sessions[si];
        let ghost before = unified_events(sessions@.take(si as int), mic_segments@, sys_segments@);
        let ghost sorted = chrono(sess.chunks@);
        let ghost sev = session_events(sorted, sess.mic_offset_ms, sess.sys_offset_ms, mic_segments@, sys_segments@);
        assert(sessions@.take(si + 1).drop_last() =~= sessions@.take(si as int));
        assert(sessions@.take(si + 1).last() == *sess);
        assert(unified_events(sessions@.take(si + 1), mic_segments@, sys_segments@) == before + sev);
        proof {
            lemma_unified_events_prefix(sessions@, si + 1, mic_segments@, sys_segments@);
        }
        let order = chrono_indices(sess.chunks.as_slice());
        assert(sorted.take(0) =~= Seq::<ChunkRecord>::empty());
        assert(before + seq![] =~= before);
        let mut k: usize = 0;
        while k < order.len()
            invariant
                k <= order.len(),
                order@ == chrono_order(sess.chunks@),
                order.len() == sess.chunks.len(),
                forall|j: int| 0 <= j < order.len() ==> (#[trigger] order@[j]) < sess.chunks.len(),
                sorted == chrono(sess.chunks@),
                sev == session_events(sorted, sess.mic_offset_ms, sess.sys_offset_ms, mic_segments@, sys_segments@),
                (before + sev).is_prefix_of(total),
                first_occ(total).len() < u32::MAX,
                ({
                    let cur = before + session_events(
                        sorted.take(k as int),
                        sess.mic_offset_ms,
                        sess.sys_offset_ms,
                        mic_segments@,
                        sys_segments@,
                    );
                    &&& mic_map.pairs() == nums_for(first_occ(cur), ChunkSource::Mic)
                    &&& sys_map.pairs() == nums_for(first_occ(cur), ChunkSource::Sys)
                    &&& next == first_occ(cur).len() + 1
                }),
            decreases order.len() - k,
        {
            let chunk = &sess.chunks[order[k]];
            let ghost cur = before + session_events(
                sorted.take(k as int),
                sess.mic_offset_ms,
                sess.sys_offset_ms,
                mic_segments@,
                sys_segments@,
            );
            assert(sorted[k as int] == *chunk);
            assert(sorted.take(k + 1).drop_last() =~= sorted.take(k as int));
            assert(sorted.take(k + 1).last() == *chunk);
            let ghost ce = session_chunk_events(
                *chunk,
                sess.mic_offset_ms,
                sess.sys_offset_ms,
                mic_segments@,
                sys_segments@,
            );
            assert(before + session_events(
                sorted.take(k + 1),
                sess.mic_offset_ms,
                sess.sys_offset_ms,
                mic_segments@,
                sys_segments@,
            ) =~= cur + ce);
            proof {
                lemma_session_events_prefix(
                    sorted,
                    k + 1,
                    sess.mic_offset_ms,
                    sess.sys_offset_ms,
                    mic_segments@,
                    sys_segments@,
                );
                let nxt = session_events(
                    sorted.take(k + 1),
                    sess.mic_offset_ms,
                    sess.sys_offset_ms,
                    mic_segments@,
                    sys_segments@,
                );
                assert((before + nxt).is_prefix_of(before + sev)) by {
                    assert forall|j: int| 0 <= j < (before + nxt).len() implies (before + nxt)[j] == (
                    before + sev)[j] by {
                        if j >= before.len() {
                            assert(nxt[j - before.len()] == sev[j - before.len()]);
                        }
                    }
                }
                assert((cur + ce).is_prefix_of(total)) by {
                    assert forall|j: int| 0 <= j < (cur + ce).len() implies (cur + ce)[j] == total[j] by {
                        assert((cur + ce)[j] == (before + nxt)[j]);
                        assert((before + nxt)[j] == (before + sev)[j]);
                    }
                }
                lemma_prefix_first_occ(cur + ce, total);
            }
            number_chunk(
                &mut mic_map,
                &mut sys_map,
                &mut next,
                chunk,
                sess.mic_offset_ms,
                sess.sys_offset_ms,
                mic_segments,
                sys_segments,
                Ghost(cur),
            );
            k += 1;
        }
        assert(sorted.take(k as int) =~= sorted);
        si += 1;
    }
    assert(sessions@.take(si as int) =~= sessions@);
    (mic_map, sys_map, next)
}

} // verus!
