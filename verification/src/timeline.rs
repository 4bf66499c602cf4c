//! The per-session playback timeline: one entry per labelled piece, with
//! stream-absolute word timings and an end time estimated where the piece
//! has none; and the clean-up of entries read back from disk.
use vstd::prelude::*;
use crate::types::{ChunkRecord, ChunkSource, ChunkWord, LabelledPiece};
use crate::labels::{chrono_indices, chrono_order, opt_chars, piece_view, piece_views, sat_add, PieceView};
use crate::pieces::{absorb_all, absorb_text_continuation_chains, bridge_all, bridge_short_interjections};
use crate::speakers::{offset_label, offset_label_unbounded};
use crate::text::{chars_of, count_words, split_ws, string_of, trim, trim_chars};
use crate::transcript::{
    chunk_order, dedup_mic_against_sys, handed_in_order, kept_chunks, kept_indices, lemma_kept_upto,
    nonblank, nonblank_pieces, split_results,
};

verus! {

/// One word's text and stream-absolute millisecond bounds.
#[derive(Debug, Clone)]
pub struct TimelineWord {
    pub text: String,
    pub start_ms: u64,
    pub end_ms: u64,
}

/// One timeline entry as the reader and player get it, tagged with the
/// session it belongs to and its line index in that session's timeline.
#[derive(Debug, Clone)]
pub struct TimelineEntry {
    pub start_ms: u64,
    pub end_ms: u64,
    pub label: String,
    pub text: String,
    pub words: Vec<TimelineWord>,
    pub session_id: String,
    pub session_index: u32,
    pub chunk_idx: usize,
}

/// Outcome of the transcript-coverage repair on note open.
#[derive(Debug, Clone, Copy, PartialEq, Eq, Structural)]
pub struct TimelineRepair {
    /// A synthesized session was written for text no timeline accounted for.
    pub repaired: bool,
    /// The merged timelines account for every word of the transcript.
    pub covers_transcript: bool,
}

/// Session metadata for the playback carousel.
#[derive(Debug, Clone)]
pub struct NoteSession {
    pub id: String,
    pub index: u32,
    pub started_at: String,
    pub duration_ms: u64,
    pub streams: Vec<String>,
    /// The session has a playable mixed recording on disk.
    pub has_playback: bool,
}

/// One line of a session's timeline file before it is encoded.
#[derive(Debug)]
pub struct TimelineRecord {
    pub start_ms: u64,
    pub end_ms: u64,
    pub label: String,
    pub text: String,
    pub words: Vec<TimelineWord>,
    pub source: ChunkSource,
}

/// A word seen as plain values.
pub open spec fn word_view(w: TimelineWord) -> (Seq<char>, u64, u64) {
    (w.text@, w.start_ms, w.end_ms)
}

/// What the timeline knows of one piece before labels are settled.
pub struct EntryBase {
    pub source: ChunkSource,
    pub start_ms: u64,
    pub text: Seq<char>,
    pub words: Seq<(Seq<char>, u64, u64)>,
    pub max_end: Option<u64>,
}

/// The latest stream-absolute word end of `ws` inside a chunk starting at `at`.
pub open spec fn max_word_end(ws: Seq<ChunkWord>, at: u64) -> u64
    decreases ws.len(),
{
    if ws.len() <= 1 {
        sat_add(at, ws[0].end_ms)
    } else {
        let m = max_word_end(ws.drop_last(), at);
        let e = sat_add(at, ws.last().end_ms);
        if e > m {
            e
        } else {
            m
        }
    }
}

/// The entry a non-blank piece of chunk `c` becomes: start at its first
/// word (stream-absolute) or at the chunk start, trimmed text, words shifted
/// to stream-absolute time, and the latest word end.
pub open spec fn entry_base(c: ChunkRecord, p: PieceView) -> EntryBase {
    EntryBase {
        source: c.source,
        start_ms: if p.words.len() > 0 {
            sat_add(c.start_ms, p.words[0].start_ms)
        } else {
            c.start_ms
        },
        text: trim(p.text),
        words: p.words.map_values(
            |w: ChunkWord| (w.text@, sat_add(c.start_ms, w.start_ms), sat_add(c.start_ms, w.end_ms)),
        ),
        max_end: if p.words.len() > 0 {
            Some(max_word_end(p.words, c.start_ms))
        } else {
            None
        },
    }
}

/// The entries of one chunk's non-blank pieces.
pub open spec fn chunk_entries(c: ChunkRecord, ps: Seq<PieceView>) -> Seq<EntryBase> {
    nonblank(ps).map_values(|p: PieceView| entry_base(c, p))
}

/// The entries of all chunks, in order.
pub open spec fn entry_bases(handed: Seq<ChunkRecord>, outs: Seq<Vec<LabelledPiece>>) -> Seq<EntryBase>
    decreases outs.len(),
{
    if outs.len() == 0 || handed.len() < outs.len() {
        seq![]
    } else {
        entry_bases(handed, outs.drop_last()) + chunk_entries(
            handed[outs.len() - 1],
            piece_views(outs.last()@),
        )
    }
}

/// Start of the next entry after `i` on the same stream, 0 when none.
pub open spec fn next_same_source_from(es: Seq<EntryBase>, i: int, j: int) -> u64
    decreases es.len() - j,
{
    if j >= es.len() || j < 0 {
        0
    } else if es[j].source == es[i].source {
        es[j].start_ms
    } else {
        next_same_source_from(es, i, j + 1)
    }
}

/// An entry's end: its latest word end when it has words; else the next
/// same-stream entry's start when that is later; else its start plus 350 ms
/// per word (at least one second), all saturating.
pub open spec fn entry_end(es: Seq<EntryBase>, i: int) -> u64 {
    let e = es[i];
    match e.max_end {
        Some(m) => m,
        None => {
            let next = next_same_source_from(es, i, i + 1);
            if next > e.start_ms {
                next
            } else {
                let wc = split_ws(e.text).len();
                let est = if wc * 350 > u64::MAX {
                    u64::MAX
                } else if wc * 350 < 1000 {
                    1000
                } else {
                    (wc * 350) as u64
                };
                sat_add(e.start_ms, est)
            }
        },
    }
}

/// The label an entry is written with: the settled piece label (empty when
/// unlabelled), bumped by `label_offset` when it is `Speaker N`.
pub open spec fn entry_label(l: Option<Seq<char>>, label_offset: u32) -> Seq<char> {
    offset_label(
        match l {
            Some(x) => x,
            None => seq![],
        },
        label_offset as nat,
    )
}

/// A record seen as plain values.
pub open spec fn record_view(r: TimelineRecord) -> (u64, u64, Seq<char>, Seq<char>, Seq<(Seq<char>, u64, u64)>, ChunkSource) {
    (r.start_ms, r.end_ms, r.label@, r.text@, r.words@.map_values(|w: TimelineWord| word_view(w)), r.source)
}

/// What the timeline of the splitter results `outs` holds: one record per
/// non-blank piece, labelled as the bridged and chain-collapsed transcript
/// labels it.
pub open spec fn timeline_spec(outs_handed: Seq<ChunkRecord>, outs: Seq<Vec<LabelledPiece>>, label_offset: u32) -> Seq<
    (u64, u64, Seq<char>, Seq<char>, Seq<(Seq<char>, u64, u64)>, ChunkSource),
> {
    let es = entry_bases(outs_handed, outs);
    let settled = absorb_all(bridge_all(nonblank_pieces(outs)));
    Seq::new(
        es.len(),
        |i: int|
            (
                es[i].start_ms,
                entry_end(es, i),
                entry_label(settled[i].label, label_offset),
                es[i].text,
                es[i].words,
                es[i].source,
            ),
    )
}

/// An entry under construction.
struct Pending {
    source: ChunkSource,
    start_ms: u64,
    text: Vec<char>,
    words: Vec<TimelineWord>,
    max_end: Option<u64>,
}

spec fn pending_view(p: Pending) -> EntryBase {
    EntryBase {
        source: p.source,
        start_ms: p.start_ms,
        text: p.text@,
        words: p.words@.map_values(|w: TimelineWord| word_view(w)),
        max_end: p.max_end,
    }
}

spec fn pending_views(ps: Seq<Pending>) -> Seq<EntryBase> {
    ps.map_values(|p: Pending| pending_view(p))
}

fn pending_of(c: &ChunkRecord, p: &LabelledPiece, text: Vec<char>) -> (r: Pending)
    requires
        text@ == trim(p.text@),
    ensures
        pending_view(r) == entry_base(*c, piece_view(*p)),
{
    let at = c.start_ms;
    let mut words: Vec<TimelineWord> = Vec::new();
    let mut max_end: u64 = 0;
    let mut k: usize = 0;
    let ghost ws = p.words@;
    let ghost target = ws.map_values(
        |w: ChunkWord| (w.text@, sat_add(at, w.start_ms), sat_add(at, w.end_ms)),
    );
    while k < p.words.len()
        invariant
            k <= p.words.len(),
            ws == p.words@,
            target == ws.map_values(
                |w: ChunkWord| (w.text@, sat_add(at, w.start_ms), sat_add(at, w.end_ms)),
            ),
            words@.map_values(|w: TimelineWord| word_view(w)) == target.take(k as int),
            k > 0 ==> max_end == max_word_end(ws.take(k as int), at),
        decreases p.words.len() - k,
    {
        let w = &p.words[k];
        let e = at.saturating_add(w.end_ms);
        proof {
            assert(ws.take(k + 1).drop_last() =~= ws.take(k as int));
            assert(ws.take(k + 1).last() == ws[k as int]);
        }
        if k == 0 || e > max_end {
            max_end = e;
        }
        let tw = TimelineWord {
            text: w.text.clone(),
            start_ms: at.saturating_add(w.start_ms),
            end_ms: e,
        };
        let ghost before = words@.map_values(|w: TimelineWord| word_view(w));
        words.push(tw);
        assert(words@.map_values(|w: TimelineWord| word_view(w)) =~= before.push(word_view(tw)));
        assert(target.take(k + 1) =~= target.take(k as int).push(target[k as int]));
        k += 1;
    }
    assert(target.take(p.words.len() as int) =~= target);
    let start = if p.words.len() > 0 {
        at.saturating_add(p.words[0].start_ms)
    } else {
        at
    };
    let me = if p.words.len() > 0 {
        assert(ws.take(p.words.len() as int) =~= ws);
        Some(max_end)
    } else {
        None
    };
    Pending { source: c.source, start_ms: start, text, words, max_end: me }
}

/// Start of the next entry after `i` on the same stream, 0 when none.
fn next_same_source(es: &Vec<Pending>, i: usize) -> (r: u64)
    requires
        i < es.len(),
    ensures
        r == next_same_source_from(pending_views(es@), i as int, i + 1),
{
    let ghost ev = pending_views(es@);
    let mut j = i + 1;
    while j < es.len()
        invariant
            i < j <= es.len(),
            ev == pending_views(es@),
            next_same_source_from(ev, i as int, i + 1) == next_same_source_from(ev, i as int, j as int),
        decreases es.len() - j,
    {
        assert(ev[j as int] == pending_view(es@[j as int]));
        assert(ev[i as int] == pending_view(es@[i as int]));
        if es[j].source == es[i].source {
            return es[j].start_ms;
        }
        j += 1;
    }
    0
}

/// The records of one session's timeline: the splitter's non-blank pieces
/// of the echo-removed chunks in chronological order, one record each, with
/// the start of its first word (or of its chunk), its end (latest word end;
/// else the next same-stream start when later; else an estimate of 350 ms
/// per word, at least one second), the label the bridged and
/// chain-collapsed transcript gives it bumped by `label_offset`, its trimmed
/// text, its words in stream-absolute time, and its stream.
pub fn timeline_records<F: Fn(&ChunkRecord) -> Vec<LabelledPiece>>(
    chunks: &[ChunkRecord],
    split_chunk: &F,
    label_offset: u32,
) -> (r: Vec<TimelineRecord>)
    requires
        forall|c: ChunkRecord| call_requires(*split_chunk, (&c,)),
    ensures
        exists|handed: Seq<ChunkRecord>, outs: Seq<Vec<LabelledPiece>>|
            #![trigger handed_in_order(chunks@, handed), split_results(*split_chunk, handed, outs)]
            handed_in_order(chunks@, handed) && split_results(*split_chunk, handed, outs)
                && r@.map_values(|x: TimelineRecord| record_view(x)) == timeline_spec(
                handed,
                outs,
                label_offset,
            ),
{
    let kept = dedup_mic_against_sys(chunks);
    let order = chrono_indices(kept.as_slice());
    proof {
        crate::transcript::lemma_chunk_order(chunks@, kept@);
        lemma_kept_upto(chunks@, chunks@.len() as int);
    }
    let ghost ord = chunk_order(chunks@);
    let mut pieces: Vec<LabelledPiece> = Vec::new();
    let mut pend: Vec<Pending> = Vec::new();
    let ghost mut handed: Seq<ChunkRecord> = seq![];
    let ghost mut outs: Seq<Vec<LabelledPiece>> = seq![];
    let mut k: usize = 0;
    while k < order.len()
        invariant
            k <= order.len(),
            order.len() == kept.len(),
            order@ == chrono_order(kept@),
            forall|j: int| 0 <= j < order.len() ==> (#[trigger] order@[j]) < kept.len(),
            kept.len() == kept_indices(chunks@).len(),
            forall|j: int|
                0 <= j < kept.len() ==> (#[trigger] kept@[j]).same(chunks@[kept_indices(chunks@)[j]]),
            chrono_order(kept@) == chrono_order(kept_chunks(chunks@)),
            ord == chunk_order(chunks@),
            ord.len() == order.len(),
            forall|c: ChunkRecord| call_requires(*split_chunk, (&c,)),
            handed.len() == k,
            outs.len() == k,
            forall|j: int| 0 <= j < k ==> (#[trigger] handed[j]).same(chunks@[ord[j]]),
            split_results(*split_chunk, handed, outs),
            piece_views(pieces@) == nonblank_pieces(outs),
            pending_views(pend@) == entry_bases(handed, outs),
            pieces.len() == pend.len(),
        decreases order.len() - k,
    {
        let c = &kept[order[k]];
        let out = split_chunk(c);
        let ghost prev_outs = outs;
        let ghost prev_handed = handed;
        proof {
            assert(ord[k as int] == kept_indices(chunks@)[order@[k as int] as int]);
            assert(kept@[order@[k as int] as int].same(chunks@[ord[k as int]]));
            handed = handed.push(*c);
            outs = outs.push(out);
            assert(outs.drop_last() =~= prev_outs);
            lemma_entry_bases_prefix(prev_handed, handed, prev_outs);
        }
        let ghost pbase = piece_views(pieces@);
        let ghost ebase = pending_views(pend@);
        let ghost ov = piece_views(out@);
        let mut m: usize = 0;
        while m < out.len()
            invariant
                m <= out.len(),
                ov == piece_views(out@),
                piece_views(pieces@) == pbase + nonblank(ov.take(m as int)),
                pending_views(pend@) == ebase + chunk_entries(*c, ov.take(m as int)),
                pieces.len() == pend.len(),
            decreases out.len() - m,
        {
            assert(ov.take(m + 1).drop_last() =~= ov.take(m as int));
            assert(ov.take(m + 1).last() == piece_view(out@[m as int]));
            let tv = chars_of(out[m].text.as_str());
            let t = trim_chars(&tv);
            let ghost before_p = piece_views(pieces@);
            let ghost before_e = pending_views(pend@);
            if t.len() > 0 {
                let e = pending_of(c, &out[m], t);
                pend.push(e);
                let p = out[m].copy();
                pieces.push(p);
                assert(piece_views(pieces@) =~= before_p.push(piece_view(out@[m as int])));
                assert(pending_views(pend@) =~= before_e.push(entry_base(*c, piece_view(out@[m as int]))));
                assert(nonblank(ov.take(m + 1)) == nonblank(ov.take(m as int)).push(ov[m as int]));
                assert(chunk_entries(*c, ov.take(m + 1)) =~= chunk_entries(*c, ov.take(m as int)).push(entry_base(*c, ov[m as int])));
                assert(piece_views(pieces@) =~= pbase + nonblank(ov.take(m + 1)));
                assert(pending_views(pend@) =~= ebase + chunk_entries(*c, ov.take(m + 1)));
            } else {
                assert(nonblank(ov.take(m + 1)) =~= nonblank(ov.take(m as int)) + Seq::<PieceView>::empty());
                assert(chunk_entries(*c, ov.take(m + 1)) =~= chunk_entries(*c, ov.take(m as int)));
            }
            m += 1;
        }
        assert(ov.take(out.len() as int) =~= ov);
        assert(outs.last() == out);
        assert(handed[k as int] == *c);
        assert(nonblank_pieces(outs) == nonblank_pieces(prev_outs) + nonblank(ov));
        assert(entry_bases(handed, outs) == entry_bases(handed, prev_outs) + chunk_entries(*c, ov));
        assert(piece_views(pieces@) =~= nonblank_pieces(outs));
        assert(pending_views(pend@) =~= entry_bases(handed, outs));
        k += 1;
    }
    assert(handed_in_order(chunks@, handed));
    let ghost unsettled = piece_views(pieces@);
    bridge_short_interjections(&mut pieces);
    absorb_text_continuation_chains(&mut pieces);
    assert(piece_views(pieces@) == absorb_all(bridge_all(unsettled)));
    proof {
        crate::pieces::lemma_bridge_all_len(unsettled);
    }
    let ghost es = pending_views(pend@);
    let ghost settled = piece_views(pieces@);
    let mut records: Vec<TimelineRecord> = Vec::new();
    let mut i: usize = 0;
    while i < pend.len()
        invariant
            i <= pend.len(),
            pieces.len() == pend.len(),
            es == pending_views(pend@),
            settled == piece_views(pieces@),
            records.len() == i,
            forall|j: int|
                0 <= j < i ==> #[trigger] record_view(records@[j]) == (
                    es[j].start_ms,
                    entry_end(es, j),
                    entry_label(settled[j].label, label_offset),
                    es[j].text,
                    es[j].words,
                    es[j].source,
                ),
        decreases pend.len() - i,
    {
        let e = &pend[i];
        assert(es[i as int] == pending_view(*e));
        assert(settled[i as int] == piece_view(pieces@[i as int]));
        let end = match e.max_end {
            Some(m) => m,
            None => {
                let next = next_same_source(&pend, i);
                if next > e.start_ms {
                    next
                } else {
                    let wc = count_words(&e.text) as u64;
                    let est = if wc > u64::MAX / 350 {
                        u64::MAX
                    } else {
                        wc * 350
                    };
                    let est = if est < 1000 {
                        1000
                    } else {
                        est
                    };
                    e.start_ms.saturating_add(est)
                }
            },
        };
        let raw: Vec<char> = match &pieces[i].label {
            Some(l) => chars_of(l.as_str()),
            None => Vec::new(),
        };
        let label = offset_label_unbounded(&raw, label_offset);
        let words = copy_timeline_words(&e.words);
        let rec = TimelineRecord {
            start_ms: e.start_ms,
            end_ms: end,
            label: string_of(&label),
            text: string_of(&e.text),
            words,
            source: e.source,
        };
        records.push(rec);
        i += 1;
    }
    assert(records@.map_values(|x: TimelineRecord| record_view(x)) =~= timeline_spec(
        handed,
        outs,
        label_offset,
    ));
    records
}

fn copy_timeline_words(ws: &Vec<TimelineWord>) -> (r: Vec<TimelineWord>)
    ensures
        r@.map_values(|w: TimelineWord| word_view(w)) == ws@.map_values(|w: TimelineWord| word_view(w)),
{
    let mut r: Vec<TimelineWord> = Vec::new();
    let mut i: usize = 0;
    while i < ws.len()
        invariant
            i <= ws.len(),
            r@.map_values(|w: TimelineWord| word_view(w)) == ws@.map_values(|w: TimelineWord| word_view(w)).take(i as int),
        decreases ws.len() - i,
    {
        let w = TimelineWord { text: ws[i].text.clone(), start_ms: ws[i].start_ms, end_ms: ws[i].end_ms };
        let ghost before = r@.map_values(|w: TimelineWord| word_view(w));
        r.push(w);
        assert(r@.map_values(|w: TimelineWord| word_view(w)) =~= before.push(word_view(w)));
        assert(ws@.map_values(|w: TimelineWord| word_view(w)).take(i + 1) =~= ws@.map_values(|w: TimelineWord| word_view(w)).take(i as int).push(word_view(ws@[i as int])));
        i += 1;
    }
    assert(ws@.map_values(|w: TimelineWord| word_view(w)).take(ws.len() as int) =~= ws@.map_values(|w: TimelineWord| word_view(w)));
    r
}

proof fn lemma_entry_bases_prefix(h1: Seq<ChunkRecord>, h2: Seq<ChunkRecord>, outs: Seq<Vec<LabelledPiece>>)
    requires
        h1.len() <= h2.len(),
        outs.len() <= h1.len(),
        forall|j: int| 0 <= j < h1.len() ==> h1[j] == h2[j],
    ensures
        entry_bases(h2, outs) == entry_bases(h1, outs),
    decreases outs.len(),
{
    if outs.len() > 0 {
        lemma_entry_bases_prefix(h1, h2, outs.drop_last());
    }
}

// ---------------------------------------------------------------------------
// Reading timelines back
// ---------------------------------------------------------------------------

/// The first start after entry `i` (from `j` on) that is later than entry
/// `i`'s start; its start plus 5 s (saturating) when there is none.
pub open spec fn later_start_from(starts: Seq<u64>, i: int, j: int) -> u64
    decreases starts.len() - j,
{
    if j >= starts.len() || j < 0 {
        sat_add(starts[i], 5000)
    } else if starts[j] > starts[i] {
        starts[j]
    } else {
        later_start_from(starts, i, j + 1)
    }
}

/// The starts of a list of entries.
pub open spec fn entry_starts(es: Seq<TimelineEntry>) -> Seq<u64> {
    es.map_values(|e: TimelineEntry| e.start_ms)
}

/// An entry's end after backfilling: kept when later than its start, else
/// the first later start among the entries after it, else its start + 5 s.
pub open spec fn backfilled_end(es: Seq<TimelineEntry>, i: int) -> u64 {
    if es[i].end_ms > es[i].start_ms {
        es[i].end_ms
    } else {
        later_start_from(entry_starts(es), i, i + 1)
    }
}

/// Give every entry without a usable end (end not after start, as in
/// timelines written before ends were recorded) one: the first later start
/// among the entries after it, or its start plus five seconds.
pub fn backfill_end_ms(entries: &mut Vec<TimelineEntry>)
    ensures
        final(entries).len() == old(entries).len(),
        forall|i: int|
            0 <= i < final(entries).len() ==> {
                let e = #[trigger] final(entries)@[i];
                let o = old(entries)@[i];
                &&& e.end_ms == backfilled_end(old(entries)@, i)
                &&& e.start_ms == o.start_ms
                &&& e.label == o.label
                &&& e.text == o.text
                &&& e.words == o.words
                &&& e.session_id == o.session_id
                &&& e.session_index == o.session_index
                &&& e.chunk_idx == o.chunk_idx
            },
{
    let ghost orig = entries@;
    let ghost starts = entry_starts(orig);
    let mut i: usize = 0;
    while i < entries.len()
        invariant
            i <= entries.len(),
            entries.len() == orig.len(),
            starts == entry_starts(orig),
            forall|k: int|
                0 <= k < entries.len() ==> {
                    let e = #[trigger] entries@[k];
                    let o = orig[k];
                    &&& e.end_ms == (if k < i {
                        backfilled_end(orig, k)
                    } else {
                        o.end_ms
                    })
                    &&& e.start_ms == o.start_ms
                    &&& e.label == o.label
                    &&& e.text == o.text
                    &&& e.words == o.words
                    &&& e.session_id == o.session_id
                    &&& e.session_index == o.session_index
                    &&& e.chunk_idx == o.chunk_idx
                },
        decreases entries.len() - i,
    {
        if entries[i].end_ms <= entries[i].start_ms {
            let s = entries[i].start_ms;
            let mut j = i + 1;
            while j < entries.len() && entries[j].start_ms <= s
                invariant
                    i < j <= entries.len(),
                    entries.len() == orig.len(),
                    starts == entry_starts(orig),
                    s == orig[i as int].start_ms,
                    forall|k: int| 0 <= k < entries.len() ==> (#[trigger] entries@[k]).start_ms == orig[k].start_ms,
                    later_start_from(starts, i as int, i + 1) == later_start_from(starts, i as int, j as int),
                decreases entries.len() - j,
            {
                assert(starts[j as int] == entries@[j as int].start_ms);
                j += 1;
            }
            assert(starts[i as int] == s);
            let fallback = if j < entries.len() {
                assert(starts[j as int] == entries@[j as int].start_ms);
                entries[j].start_ms
            } else {
                s.saturating_add(5000)
            };
            let ghost before = entries@;
            entries[i].end_ms = fallback;
            assert(fallback == backfilled_end(orig, i as int));
        }
        i += 1;
    }
}

/// One session's timeline as transcript lines: blank entries skipped, text
/// trimmed; consecutive entries with the same label join with a space, a
/// label change starts a new line prefixed `Label: ` (no prefix for the
/// empty label).
pub open spec fn group_step(st: (Seq<char>, Option<Seq<char>>), e: (Seq<char>, Seq<char>)) -> (
    Seq<char>,
    Option<Seq<char>>,
) {
    let label = e.0;
    let t = trim(e.1);
    if t.len() == 0 {
        st
    } else if st.1 != Some(label) {
        (
            (if st.0.len() > 0 {
                st.0.push('\n')
            } else {
                st.0
            }) + (if label.len() > 0 {
                label + seq![':', ' ']
            } else {
                seq![]
            }) + t,
            Some(label),
        )
    } else {
        (st.0.push(' ') + t, st.1)
    }
}

/// The grouping state after the first `n` entries.
pub open spec fn group_upto(es: Seq<(Seq<char>, Seq<char>)>, n: int) -> (Seq<char>, Option<Seq<char>>)
    decreases n,
{
    if n <= 0 {
        (seq![], None)
    } else {
        group_step(group_upto(es, n - 1), es[n - 1])
    }
}

/// Group one session's timeline entries, given as `(label, text)`, into
/// transcript lines the way the transcript itself is built: same-label runs
/// on one `Label: ` line, blank entries skipped.
pub fn group_values_to_transcript(entries: &[(String, String)]) -> (r: String)
    ensures
        r@ == group_upto(
            entries@.map_values(|e: (String, String)| (e.0@, e.1@)),
            entries@.len() as int,
        ).0,
{
    let ghost es = entries@.map_values(|e: (String, String)| (e.0@, e.1@));
    let mut out: Vec<char> = Vec::new();
    let mut last: Option<Vec<char>> = None;
    let mut i: usize = 0;
    while i < entries.len()
        invariant
            i <= entries.len(),
            es == entries@.map_values(|e: (String, String)| (e.0@, e.1@)),
            (out@, match last {
                Some(l) => Some(l@),
                None => None::<Seq<char>>,
            }) == group_upto(es, i as int),
        decreases entries.len() - i,
    {
        assert(es[i as int] == (entries@[i as int].0@, entries@[i as int].1@));
        let label = chars_of(entries[i].0.as_str());
        let t = trim_chars(&chars_of(entries[i].1.as_str()));
        if t.len() > 0 {
            let same = match &last {
                Some(l) => crate::text::chars_eq(l, &label),
                None => false,
            };
            if !same {
                if out.len() > 0 {
                    out.push('\n');
                }
                if label.len() > 0 {
                    crate::text::extend_chars(&mut out, &label);
                    out.push(':');
                    out.push(' ');
                }
                crate::text::extend_chars(&mut out, &t);
                last = Some(label);
            } else {
                out.push(' ');
                crate::text::extend_chars(&mut out, &t);
            }
        }
        i += 1;
    }
    string_of(&out)
}

/// An entry has a latest word end exactly when it has words, and it is the
/// largest of its words' ends.
pub open spec fn ends_by_words(e: EntryBase) -> bool {
    &&& (e.max_end is Some) == (e.words.len() > 0)
    &&& e.max_end matches Some(m) ==> (forall|w: int| 0 <= w < e.words.len() ==> (#[trigger] e.words[w]).2 <= m)
        && exists|w: int| 0 <= w < e.words.len() && (#[trigger] e.words[w]).2 == m
}

proof fn lemma_max_word_end(ws: Seq<ChunkWord>, at: u64)
    requires
        ws.len() > 0,
    ensures
        forall|w: int| 0 <= w < ws.len() ==> sat_add(at, (#[trigger] ws[w]).end_ms) <= max_word_end(ws, at),
        exists|w: int| 0 <= w < ws.len() && sat_add(at, (#[trigger] ws[w]).end_ms) == max_word_end(ws, at),
    decreases ws.len(),
{
    if ws.len() == 1 {
        assert(sat_add(at, ws[0].end_ms) == max_word_end(ws, at));
    } else {
        let d = ws.drop_last();
        lemma_max_word_end(d, at);
        assert forall|w: int| 0 <= w < ws.len() implies sat_add(at, (#[trigger] ws[w]).end_ms) <= max_word_end(ws, at) by {
            if w < d.len() {
                assert(d[w] == ws[w]);
            }
        }
        let w0 = choose|w: int| 0 <= w < d.len() && sat_add(at, (#[trigger] d[w]).end_ms) == max_word_end(d, at);
        if sat_add(at, ws.last().end_ms) > max_word_end(d, at) {
            assert(sat_add(at, ws[ws.len() - 1].end_ms) == max_word_end(ws, at));
        } else {
            assert(d[w0] == ws[w0]);
            assert(sat_add(at, ws[w0].end_ms) == max_word_end(ws, at));
        }
    }
}

proof fn lemma_entry_bases_end_by_words(handed: Seq<ChunkRecord>, outs: Seq<Vec<LabelledPiece>>)
    ensures
        forall|k: int|
            0 <= k < entry_bases(handed, outs).len() ==> ends_by_words(#[trigger] entry_bases(handed, outs)[k]),
    decreases outs.len(),
{
    if outs.len() > 0 && handed.len() >= outs.len() {
        lemma_entry_bases_end_by_words(handed, outs.drop_last());
        let a = entry_bases(handed, outs.drop_last());
        let c = handed[outs.len() - 1];
        let b = chunk_entries(c, piece_views(outs.last()@));
        assert forall|k: int| 0 <= k < b.len() implies ends_by_words(#[trigger] b[k]) by {
            let p = nonblank(piece_views(outs.last()@))[k];
            assert(b[k] == entry_base(c, p));
            if p.words.len() > 0 {
                lemma_max_word_end(p.words, c.start_ms);
                let e = b[k];
                assert forall|w: int| 0 <= w < e.words.len() implies (#[trigger] e.words[w]).2 <= e.max_end->0 by {
                    assert(e.words[w].2 == sat_add(c.start_ms, p.words[w].end_ms));
                }
                let w0 = choose|w: int|
                    0 <= w < p.words.len() && sat_add(c.start_ms, (#[trigger] p.words[w]).end_ms) == max_word_end(
                        p.words,
                        c.start_ms,
                    );
                assert(e.words[w0].2 == e.max_end->0);
            }
        }
        assert forall|k: int| 0 <= k < (a + b).len() implies ends_by_words(#[trigger] (a + b)[k]) by {
            if k < a.len() {
                assert((a + b)[k] == a[k]);
            } else {
                assert((a + b)[k] == b[k - a.len()]);
            }
        }
    }
}

proof fn lemma_next_same_source_is(es: Seq<EntryBase>, i: int, j: int, s: int)
    requires
        0 <= i < s <= j < es.len(),
        es[j].source == es[i].source,
        forall|m: int| i < m < j ==> (#[trigger] es[m]).source != es[i].source,
    ensures
        next_same_source_from(es, i, s) == es[j].start_ms,
    decreases j - s,
{
    if s < j {
        lemma_next_same_source_is(es, i, j, s + 1);
    }
}

proof fn lemma_next_same_source_none(es: Seq<EntryBase>, i: int, s: int)
    requires
        0 <= i < s <= es.len(),
        forall|m: int| i < m < es.len() ==> (#[trigger] es[m]).source != es[i].source,
    ensures
        next_same_source_from(es, i, s) == 0,
    decreases es.len() - s,
{
    if s < es.len() {
        lemma_next_same_source_none(es, i, s + 1);
    }
}

/// A timeline record without word timings ends where the next record of the
/// same stream starts, when that start is later: records of the other stream
/// in between are skipped. When that next record starts no later, the
/// record gets an estimated length of at least a second (saturating).
pub proof fn law_timeline_end_is_next_same_stream_start(
    handed: Seq<ChunkRecord>,
    outs: Seq<Vec<LabelledPiece>>,
    label_offset: u32,
    i: int,
    j: int,
)
    requires
        0 <= i < j < timeline_spec(handed, outs, label_offset).len(),
        timeline_spec(handed, outs, label_offset)[i].4.len() == 0,
        timeline_spec(handed, outs, label_offset)[j].5 == timeline_spec(handed, outs, label_offset)[i].5,
        forall|m: int|
            i < m < j ==> (#[trigger] timeline_spec(handed, outs, label_offset)[m]).5 != timeline_spec(
                handed,
                outs,
                label_offset,
            )[i].5,
    ensures
        timeline_spec(handed, outs, label_offset)[j].0 > timeline_spec(handed, outs, label_offset)[i].0
            ==> timeline_spec(handed, outs, label_offset)[i].1 == timeline_spec(handed, outs, label_offset)[j].0,
        timeline_spec(handed, outs, label_offset)[j].0 <= timeline_spec(handed, outs, label_offset)[i].0 ==> (
        timeline_spec(handed, outs, label_offset)[i].1 >= timeline_spec(handed, outs, label_offset)[i].0 + 1000
            || timeline_spec(handed, outs, label_offset)[i].1 == u64::MAX),
{
    let es = entry_bases(handed, outs);
    let r = timeline_spec(handed, outs, label_offset);
    lemma_entry_bases_end_by_words(handed, outs);
    assert(ends_by_words(es[i]));
    assert forall|m: int| i < m < j implies (#[trigger] es[m]).source != es[i].source by {
        assert(r[m].5 == es[m].source);
    }
    lemma_next_same_source_is(es, i, j, i + 1);
}

/// A timeline record without word timings and with no later record of its
/// stream (or whose next same-stream record starts no later) gets an
/// estimated length: it ends at least a second after it starts (saturating).
pub proof fn law_timeline_end_estimated(
    handed: Seq<ChunkRecord>,
    outs: Seq<Vec<LabelledPiece>>,
    label_offset: u32,
    i: int,
)
    requires
        0 <= i < timeline_spec(handed, outs, label_offset).len(),
        timeline_spec(handed, outs, label_offset)[i].4.len() == 0,
        forall|m: int|
            i < m < timeline_spec(handed, outs, label_offset).len() ==> (#[trigger] timeline_spec(
                handed,
                outs,
                label_offset,
            )[m]).5 != timeline_spec(handed, outs, label_offset)[i].5,
    ensures
        timeline_spec(handed, outs, label_offset)[i].1 >= timeline_spec(handed, outs, label_offset)[i].0 + 1000
            || timeline_spec(handed, outs, label_offset)[i].1 == u64::MAX,
{
    let es = entry_bases(handed, outs);
    let r = timeline_spec(handed, outs, label_offset);
    lemma_entry_bases_end_by_words(handed, outs);
    assert(ends_by_words(es[i]));
    assert forall|m: int| i < m < es.len() implies (#[trigger] es[m]).source != es[i].source by {
        assert(r[m].5 == es[m].source);
    }
    lemma_next_same_source_none(es, i, i + 1);
}

/// A timeline record with word timings ends at its latest word end: no word
/// ends after the record, and some word ends exactly when it does.
pub proof fn law_timeline_end_is_last_word_end(
    handed: Seq<ChunkRecord>,
    outs: Seq<Vec<LabelledPiece>>,
    label_offset: u32,
    i: int,
)
    requires
        0 <= i < timeline_spec(handed, outs, label_offset).len(),
        timeline_spec(handed, outs, label_offset)[i].4.len() > 0,
    ensures
        forall|w: int|
            0 <= w < timeline_spec(handed, outs, label_offset)[i].4.len() ==> (#[trigger] timeline_spec(
                handed,
                outs,
                label_offset,
            )[i].4[w]).2 <= timeline_spec(handed, outs, label_offset)[i].1,
        exists|w: int|
            0 <= w < timeline_spec(handed, outs, label_offset)[i].4.len() && (#[trigger] timeline_spec(
                handed,
                outs,
                label_offset,
            )[i].4[w]).2 == timeline_spec(handed, outs, label_offset)[i].1,
{
    let es = entry_bases(handed, outs);
    lemma_entry_bases_end_by_words(handed, outs);
    assert(ends_by_words(es[i]));
    let r = timeline_spec(handed, outs, label_offset);
    assert(r[i].4 == es[i].words);
    assert(r[i].1 == es[i].max_end->0);
}

} // verus!
