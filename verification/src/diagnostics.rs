//! What the diarize diagnostics dump records: the raw speaker id behind
//! every timed word, and which pieces the interjection bridge relabelled.
use vstd::prelude::*;
use crate::labels::{assign_speaker, assigned, opt_chars, opt_eq, stream_segs, word_abs, word_abs_exec};
use crate::text::{chars_of, string_of};
use crate::types::{copy_opt_string, ChunkRecord, ChunkSource, ChunkWord, LabelledPiece, Segment};

verus! {

/// The raw diarizer id for word `w` of chunk `c`: the id of the segment its
/// absolute midpoint falls to in the chunk's own stream, `None` when that
/// stream has no segments.
pub open spec fn word_speaker_id(c: ChunkRecord, w: ChunkWord, mic: Seq<Segment>, sys: Seq<Segment>) -> Option<
    Seq<char>,
> {
    let segs = stream_segs(c.source, mic, sys);
    if segs.len() == 0 {
        None
    } else {
        Some(segs[assigned(segs, word_abs(c.start_ms, w))].speaker_id@)
    }
}

/// For each chunk, the raw speaker id of each of its words, looked up in the
/// chunk's own stream (`r[i][j]` belongs to word `j` of chunk `i`).
pub fn word_speaker_ids(chunks: &[ChunkRecord], mic_segments: &[Segment], sys_segments: &[Segment]) -> (r: Vec<
    Vec<Option<String>>,
>)
    ensures
        r.len() == chunks.len(),
        forall|i: int| 0 <= i < chunks.len() ==> (#[trigger] r[i]).len() == chunks[i].words.len(),
        forall|i: int, j: int|
            0 <= i < chunks.len() && 0 <= j < chunks[i].words.len() ==> opt_chars(#[trigger] r[i][j])
                == word_speaker_id(chunks[i], chunks[i].words[j], mic_segments@, sys_segments@),
{
    let mut out: Vec<Vec<Option<String>>> = Vec::new();
    let mut i: usize = 0;
    while i < chunks.len()
        invariant
            i <= chunks.len(),
            out.len() == i,
            forall|k: int| 0 <= k < i ==> (#[trigger] out[k]).len() == chunks[k].words.len(),
            forall|k: int, j: int|
                0 <= k < i && 0 <= j < chunks[k].words.len() ==> opt_chars(#[trigger] out[k][j])
                    == word_speaker_id(chunks[k], chunks[k].words[j], mic_segments@, sys_segments@),
        decreases chunks.len() - i,
    {
        let c = &chunks[i];
        let segments: &[Segment] = match c.source {
            ChunkSource::Mic => mic_segments,
            ChunkSource::Sys => sys_segments,
        };
        assert(segments@ == stream_segs(c.source, mic_segments@, sys_segments@));
        let mut ids: Vec<Option<String>> = Vec::new();
        let mut j: usize = 0;
        while j < c.words.len()
            invariant
                j <= c.words.len(),
                ids.len() == j,
                segments@ == stream_segs(c.source, mic_segments@, sys_segments@),
                forall|m: int|
                    0 <= m < j ==> opt_chars(#[trigger] ids[m]) == word_speaker_id(
                        *c,
                        c.words[m],
                        mic_segments@,
                        sys_segments@,
                    ),
            decreases c.words.len() - j,
        {
            let t = word_abs_exec(c.start_ms, &c.words[j]);
            let id = match assign_speaker(t, segments) {
                Some(s) => Some(string_of(&chars_of(s))),
                None => None,
            };
            ids.push(id);
            j += 1;
        }
        out.push(ids);
        i += 1;
    }
    out
}

/// One relabelling: the piece's index, its label before, its label after.
pub open spec fn change_view(e: (usize, Option<String>, Option<String>)) -> (int, Option<Seq<char>>, Option<
    Seq<char>,
>) {
    (e.0 as int, opt_chars(e.1), opt_chars(e.2))
}

/// The pieces among the first `n` whose label differs between `pre` and
/// `post`, in index order.
pub open spec fn label_changes(pre: Seq<LabelledPiece>, post: Seq<LabelledPiece>, n: int) -> Seq<
    (int, Option<Seq<char>>, Option<Seq<char>>),
>
    decreases n,
{
    if n <= 0 {
        seq![]
    } else {
        let a = opt_chars(pre[n - 1].label);
        let b = opt_chars(post[n - 1].label);
        label_changes(pre, post, n - 1) + if a != b {
            seq![(n - 1, a, b)]
        } else {
            seq![]
        }
    }
}

/// What the bridge changed: when both piece lists have the same length,
/// every index whose label differs, with the label before and after, in
/// index order; nothing when the lengths differ.
pub open spec fn bridge_diff(pre: Seq<LabelledPiece>, post: Seq<LabelledPiece>) -> Seq<
    (int, Option<Seq<char>>, Option<Seq<char>>),
> {
    if pre.len() == post.len() {
        label_changes(pre, post, pre.len() as int)
    } else {
        seq![]
    }
}

/// The pieces whose label the interjection bridge changed, as
/// (index, label before, label after).
pub fn bridge_changes(pre: &[LabelledPiece], post: &[LabelledPiece]) -> (r: Vec<
    (usize, Option<String>, Option<String>),
>)
    ensures
        r@.map_values(|e: (usize, Option<String>, Option<String>)| change_view(e)) == bridge_diff(pre@, post@),
{
    let mut out: Vec<(usize, Option<String>, Option<String>)> = Vec::new();
    if pre.len() != post.len() {
        assert(out@.map_values(|e: (usize, Option<String>, Option<String>)| change_view(e)) =~= Seq::<
            (int, Option<Seq<char>>, Option<Seq<char>>),
        >::empty());
        return out;
    }
    let mut i: usize = 0;
    while i < pre.len()
        invariant
            i <= pre.len(),
            pre.len() == post.len(),
            out@.map_values(|e: (usize, Option<String>, Option<String>)| change_view(e)) == label_changes(
                pre@,
                post@,
                i as int,
            ),
        decreases pre.len() - i,
    {
        let ghost before = out@;
        if !opt_eq(&pre[i].label, &post[i].label) {
            out.push((i, copy_opt_string(&pre[i].label), copy_opt_string(&post[i].label)));
            assert(out@ == before.push(out@.last()));
        }
        assert(out@.map_values(|e: (usize, Option<String>, Option<String>)| change_view(e)) =~= label_changes(
            pre@,
            post@,
            i + 1,
        ));
        i += 1;
    }
    out
}

} // verus!
