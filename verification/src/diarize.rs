//! How a recording's chunks are split into labelled pieces once its
//! streams have been diarized: per capture mode, and for the note-wide
//! unify pass where chunk times are shifted into the concatenated audio.
use vstd::prelude::*;
use crate::types::{ChunkRecord, ChunkSource, LabelledPiece, Segment};
use crate::labels::{
    piece_views, single_piece, speaker_label, split_by_labels, split_spec, you_label, HybridLabels,
    LabelMap, PieceView, sat_add,
};
use crate::speakers::{dec, speaker_prefix};
use crate::text::string_of;

verus! {

/// A chunk as one piece with the given label.
pub open spec fn whole_chunk(c: ChunkRecord, label: Seq<char>) -> Seq<PieceView> {
    seq![PieceView { label: Some(label), text: c.text@, words: c.words@ }]
}

/// How a hybrid recording's chunk is split: a mic chunk with no mic
/// segments is one `You` piece, a system chunk with no system segments is
/// one piece under the first unused speaker number (so it never merges
/// into the line before it); otherwise the chunk is split by its stream's
/// segments and labels.
pub open spec fn hybrid_split(c: ChunkRecord, mic: Seq<Segment>, sys: Seq<Segment>, labels: HybridLabels) -> Seq<PieceView> {
    match c.source {
        ChunkSource::Mic => if mic.len() == 0 {
            whole_chunk(c, you_label())
        } else {
            split_spec(c, mic, labels.mic)
        },
        ChunkSource::Sys => if sys.len() == 0 {
            whole_chunk(c, speaker_prefix() + dec(labels.next_free as nat))
        } else {
            split_spec(c, sys, labels.sys)
        },
    }
}

fn you_string() -> (r: String)
    ensures
        r@ == you_label(),
{
    let v: Vec<char> = vec!['Y', 'o', 'u'];
    assert(v@ =~= you_label());
    string_of(&v)
}

/// Split one chunk of a hybrid (mic and system) recording into labelled
/// pieces.
pub fn hybrid_split_chunk(
    c: &ChunkRecord,
    mic_segments: &[Segment],
    sys_segments: &[Segment],
    labels: &HybridLabels,
) -> (r: Vec<LabelledPiece>)
    ensures
        piece_views(r@) == hybrid_split(*c, mic_segments@, sys_segments@, *labels),
{
    match c.source {
        ChunkSource::Mic => {
            if mic_segments.len() == 0 {
                let r = single_piece(c, Some(you_string()));
                assert(piece_views(r@) =~= whole_chunk(*c, you_label()));
                r
            } else {
                split_by_labels(c, mic_segments, &labels.mic)
            }
        },
        ChunkSource::Sys => {
            if sys_segments.len() == 0 {
                let l = speaker_label(labels.next_free as u64);
                let r = single_piece(c, Some(l));
                assert(piece_views(r@) =~= whole_chunk(
                    *c,
                    speaker_prefix() + dec(labels.next_free as nat),
                ));
                r
            } else {
                split_by_labels(c, sys_segments, &labels.sys)
            }
        },
    }
}

/// `c` with its start moved `off` ms later (saturating).
pub open spec fn shifted(c: ChunkRecord, off: u64) -> ChunkRecord {
    ChunkRecord { start_ms: sat_add(c.start_ms, off), ..c }
}

/// How a chunk is split in the note-wide unify pass: looked up against the
/// concatenated stream's segments at its time shifted by its session's
/// offset; a mic chunk with no mic segments stays one `You` piece.
pub open spec fn unified_split(
    c: ChunkRecord,
    mic_off: u64,
    sys_off: u64,
    mic: Seq<Segment>,
    sys: Seq<Segment>,
    mic_labels: LabelMap,
    sys_labels: LabelMap,
) -> Seq<PieceView> {
    match c.source {
        ChunkSource::Mic => if mic.len() == 0 {
            whole_chunk(c, you_label())
        } else {
            split_spec(shifted(c, mic_off), mic, mic_labels)
        },
        ChunkSource::Sys => split_spec(shifted(c, sys_off), sys, sys_labels),
    }
}

/// Split one chunk of a session in the note-wide unify pass.
pub fn unified_split_chunk(
    c: &ChunkRecord,
    mic_off: u64,
    sys_off: u64,
    mic_segments: &[Segment],
    sys_segments: &[Segment],
    mic_labels: &LabelMap,
    sys_labels: &LabelMap,
) -> (r: Vec<LabelledPiece>)
    ensures
        piece_views(r@) == unified_split(
            *c,
            mic_off,
            sys_off,
            mic_segments@,
            sys_segments@,
            *mic_labels,
            *sys_labels,
        ),
{
    match c.source {
        ChunkSource::Mic => {
            if mic_segments.len() == 0 {
                let r = single_piece(c, Some(you_string()));
                assert(piece_views(r@) =~= whole_chunk(*c, you_label()));
                r
            } else {
                let mut s = c.copy();
                s.start_ms = c.start_ms.saturating_add(mic_off);
                let r = split_by_labels(&s, mic_segments, mic_labels);
                assert(split_spec(s, mic_segments@, *mic_labels) == split_spec(
                    shifted(*c, mic_off),
                    mic_segments@,
                    *mic_labels,
                ));
                r
            }
        },
        ChunkSource::Sys => {
            let mut s = c.copy();
            s.start_ms = c.start_ms.saturating_add(sys_off);
            let r = split_by_labels(&s, sys_segments, sys_labels);
            assert(split_spec(s, sys_segments@, *sys_labels) == split_spec(
                shifted(*c, sys_off),
                sys_segments@,
                *sys_labels,
            ));
            r
        },
    }
}

} // verus!
