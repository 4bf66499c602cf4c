//! Speaker-count hints handed to the diarizer for each stream of a
//! recording, derived from the note's expected head count.
use vstd::prelude::*;
use crate::types::{ChunkRecord, ChunkSource, Segment};
use crate::labels::{first_occ, lemma_first_occ_no_dups, seqs_of_strings};
use crate::filters::{count_source, lemma_count_source};
use crate::text::{chars_eq, chars_of};

verus! {

/// The speaker ids of `segs`, in order.
pub open spec fn segment_ids(segs: Seq<Segment>) -> Seq<Seq<char>> {
    segs.map_values(|s: Segment| s.speaker_id@)
}

/// The distinct speaker ids of `segs`, in first-occurrence order.
pub open spec fn distinct_ids(segs: Seq<Segment>) -> Seq<Seq<char>> {
    first_occ(segment_ids(segs))
}

pub proof fn lemma_distinct_ids_len(segs: Seq<Segment>)
    ensures
        distinct_ids(segs).len() <= segs.len(),
{
    lemma_first_occ_len(segment_ids(segs));
}

proof fn lemma_first_occ_len<T>(s: Seq<T>)
    ensures
        first_occ(s).len() <= s.len(),
    decreases s.len(),
{
    if s.len() > 0 {
        lemma_first_occ_len(s.drop_last());
    }
}

/// How many distinct voices a segment list describes: the number of
/// distinct speaker ids among its segments.
pub fn distinct_speaker_count(segments: &[Segment]) -> (n: usize)
    ensures
        n == distinct_ids(segments@).len(),
{
    let mut seen: Vec<Vec<char>> = Vec::new();
    let mut i: usize = 0;
    while i < segments.len()
        invariant
            i <= segments.len(),
            crate::text::seqs(seen@) == first_occ(segment_ids(segments@).take(i as int)),
        decreases segments.len() - i,
    {
        let ghost ids = segment_ids(segments@);
        let ghost before = crate::text::seqs(seen@);
        assert(ids.take(i + 1).drop_last() =~= ids.take(i as int));
        assert(ids.take(i + 1).last() == segments@[i as int].speaker_id@);
        let id = chars_of(segments[i].speaker_id.as_str());
        let mut k: usize = 0;
        let mut found = false;
        while k < seen.len()
            invariant
                k <= seen.len(),
                found ==> before.contains(id@),
                !found ==> forall|j: int| 0 <= j < k ==> seen@[j]@ != id@,
                before == crate::text::seqs(seen@),
            decreases seen.len() - k,
        {
            if chars_eq(&seen[k], &id) {
                assert(before[k as int] == id@);
                found = true;
            }
            k += 1;
        }
        if !found {
            assert forall|j: int| 0 <= j < before.len() implies before[j] != id@ by {
                assert(before[j] == seen@[j]@);
            }
            seen.push(id);
            assert(crate::text::seqs(seen@) =~= before.push(segments@[i as int].speaker_id@));
        }
        i += 1;
    }
    assert(segment_ids(segments@).take(segments.len() as int) =~= segment_ids(segments@));
    seen.len()
}

/// Speaker hint for the system stream of a hybrid recording: with no
/// chunks, or when the system stream carries fewer than 1 in 20 of them
/// (incidental sound, not a side of a call), no hint; otherwise the note's
/// head count less the one person at the mic, at least 1.
pub fn hybrid_sys_hint(expected_speakers: Option<i64>, chunks: &[ChunkRecord]) -> (r: Option<i64>)
    requires
        expected_speakers matches Some(n) ==> n > i64::MIN,
    ensures
        ({
            let sys = count_source(chunks@, ChunkSource::Sys, chunks@.len() as int);
            r == if chunks@.len() == 0 || sys * 20 < chunks@.len() {
                None
            } else {
                match expected_speakers {
                    Some(n) => Some(if n - 1 >= 1 {
                        (n - 1) as i64
                    } else {
                        1
                    }),
                    None => None,
                }
            }
        }),
{
    if chunks.len() == 0 {
        return None;
    }
    let mut sys: usize = 0;
    let mut i: usize = 0;
    while i < chunks.len()
        invariant
            i <= chunks.len(),
            sys == count_source(chunks@, ChunkSource::Sys, i as int),
            sys <= i,
        decreases chunks.len() - i,
    {
        if chunks[i].source == ChunkSource::Sys {
            sys += 1;
        }
        i += 1;
    }
    if (sys as u128) * 20 < (chunks.len() as u128) {
        return None;
    }
    match expected_speakers {
        Some(n) => {
            let m = n - 1;
            Some(if m >= 1 {
                m
            } else {
                1
            })
        },
        None => None,
    }
}

/// Speaker hint for the mic stream once the system stream is diarized: the
/// note's head count less the voices the system side accounted for, at
/// least 1.
pub fn mic_hint_after_sys(expected_speakers: Option<i64>, sys_segments: &[Segment]) -> (r: Option<i64>)
    requires
        expected_speakers matches Some(n) ==> n - distinct_ids(sys_segments@).len() >= i64::MIN,
        distinct_ids(sys_segments@).len() <= i64::MAX,
    ensures
        r == match expected_speakers {
            Some(n) => Some(
                if n - distinct_ids(sys_segments@).len() >= 1 {
                    (n - distinct_ids(sys_segments@).len()) as i64
                } else {
                    1
                },
            ),
            None => None::<i64>,
        },
{
    let voices = distinct_speaker_count(sys_segments) as i64;
    match expected_speakers {
        Some(n) => {
            let m = n - voices;
            Some(if m >= 1 {
                m
            } else {
                1
            })
        },
        None => None,
    }
}

} // verus!
