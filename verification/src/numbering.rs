//! Laws of the speaker numbering that both the per-take hybrid labels and
//! the note-wide unify pass hand out: one counter shared by the two streams,
//! so a mic speaker and a system speaker never end up with the same label.
use vstd::prelude::*;
use crate::labels::{
    all_events, chrono, chunk_events, finalise, first_occ, hybrid_numbering, ids_at, lemma_first_occ_no_dups,
    nums_for, stream_segs, you_label,
};
use crate::order::law_stable_order_sorted;
use crate::sessions::{session_chunk_events, session_events, unified_events, unified_numbering, UnifySession};
use crate::speakers::{dec, lemma_dec_digits, speaker_prefix};
use crate::types::{ChunkRecord, ChunkSource, Segment};
use crate::unify::allow_you;

verus! {

/// The labels of a label list, in order.
pub open spec fn label_list(ps: Seq<(Seq<char>, Seq<char>)>) -> Seq<Seq<char>> {
    ps.map_values(|p: (Seq<char>, Seq<char>)| p.1)
}

/// `Speaker <k>`.
pub open spec fn speaker_k(k: nat) -> Seq<char> {
    speaker_prefix() + dec(k)
}

/// No element of `s` occurs twice.
pub open spec fn pairwise_distinct(s: Seq<Seq<char>>) -> bool {
    forall|i: int, j: int| 0 <= i < j < s.len() ==> s[i] != s[j]
}

/// `l` is `Speaker <k>` for some `1 <= k < next`.
pub open spec fn is_speaker_below(l: Seq<char>, next: nat) -> bool {
    exists|k: nat| 1 <= k < next && l == speaker_k(k)
}

/// The labels in `all` are `Speaker 1` through `Speaker (next - 1)`: each
/// label is one of them and each of them is some label.
pub open spec fn exactly_numbered(all: Seq<Seq<char>>, next: nat) -> bool {
    &&& forall|i: int| 0 <= i < all.len() ==> is_speaker_below(#[trigger] all[i], next)
    &&& forall|k: nat| 1 <= k < next ==> all.contains(#[trigger] speaker_k(k))
}

/// The display labels a numbering order gives the two streams are pairwise
/// distinct. When `You` is allowed and the mic has one voice, that voice is
/// `You`, the system voices are `Speaker 1..=n` in number order and the next
/// free number is `n + 1`; otherwise the labels are exactly `Speaker 1`
/// through `Speaker (next_free - 1)`, one per numbered voice.
pub open spec fn labels_well_numbered(nb: Seq<(ChunkSource, Seq<char>)>, allow: bool) -> bool {
    let r = finalise(nums_for(nb, ChunkSource::Mic), nums_for(nb, ChunkSource::Sys), allow, nb.len() + 1);
    let all = label_list(r.0) + label_list(r.1);
    &&& pairwise_distinct(all)
    &&& if allow && nums_for(nb, ChunkSource::Mic).len() == 1 {
        &&& r.0.len() == 1
        &&& r.0[0].1 == you_label()
        &&& r.2 == r.1.len() + 1
        &&& forall|i: int| 0 <= i < r.1.len() ==> #[trigger] r.1[i].1 == speaker_k((i + 1) as nat)
    } else {
        &&& r.2 == r.0.len() + r.1.len() + 1
        &&& exactly_numbered(all, r.2)
    }
}

proof fn lemma_speaker_k_injective(a: nat, b: nat)
    requires
        speaker_k(a) == speaker_k(b),
    ensures
        a == b,
{
    lemma_dec_digits(a);
    lemma_dec_digits(b);
    assert(speaker_k(a).skip(8) =~= dec(a));
    assert(speaker_k(b).skip(8) =~= dec(b));
}

proof fn lemma_you_is_no_speaker(k: nat)
    ensures
        you_label() != speaker_k(k),
{
    lemma_dec_digits(k);
    assert(speaker_k(k).len() > 3);
}

proof fn lemma_nums_for_shape(nb: Seq<(ChunkSource, Seq<char>)>, src: ChunkSource)
    ensures
        forall|i: int|
            0 <= i < nums_for(nb, src).len() ==> {
                let e = #[trigger] nums_for(nb, src)[i];
                &&& 1 <= e.1 <= nb.len()
                &&& nb[e.1 - 1] == (src, e.0)
            },
        forall|i: int, j: int|
            0 <= i < j < nums_for(nb, src).len() ==> #[trigger] nums_for(nb, src)[i].1 < #[trigger] nums_for(
                nb,
                src,
            )[j].1,
    decreases nb.len(),
{
    if nb.len() > 0 {
        let d = nb.drop_last();
        lemma_nums_for_shape(d, src);
        let p = nums_for(d, src);
        let n = nums_for(nb, src);
        assert forall|i: int| 0 <= i < p.len() implies n[i] == p[i] by {}
        assert forall|i: int| 0 <= i < n.len() implies {
            let e = #[trigger] n[i];
            &&& 1 <= e.1 <= nb.len()
            &&& nb[e.1 - 1] == (src, e.0)
        } by {
            if i < p.len() {
                assert(n[i] == p[i]);
                assert(d[p[i].1 - 1] == nb[p[i].1 - 1]);
            }
        }
        assert forall|i: int, j: int| 0 <= i < j < n.len() implies #[trigger] n[i].1 < #[trigger] n[j].1 by {
            if j < p.len() {
                assert(n[i] == p[i] && n[j] == p[j]);
            } else {
                assert(n[i] == p[i]);
            }
        }
    }
}

/// Some id of `s` carries the number `k`.
pub open spec fn has_number(s: Seq<(Seq<char>, nat)>, k: nat) -> bool {
    exists|i: int| 0 <= i < s.len() && s[i].1 == k
}

proof fn lemma_nums_cover(nb: Seq<(ChunkSource, Seq<char>)>)
    ensures
        nums_for(nb, ChunkSource::Mic).len() + nums_for(nb, ChunkSource::Sys).len() == nb.len(),
        forall|k: nat|
            1 <= k <= nb.len() ==> #[trigger] has_number(nums_for(nb, ChunkSource::Mic), k) || has_number(
                nums_for(nb, ChunkSource::Sys),
                k,
            ),
    decreases nb.len(),
{
    if nb.len() > 0 {
        let d = nb.drop_last();
        lemma_nums_cover(d);
        let pm = nums_for(d, ChunkSource::Mic);
        let ps = nums_for(d, ChunkSource::Sys);
        let m = nums_for(nb, ChunkSource::Mic);
        let s = nums_for(nb, ChunkSource::Sys);
        assert forall|k: nat| 1 <= k <= nb.len() implies #[trigger] has_number(m, k) || has_number(s, k) by {
            if k == nb.len() {
                if nb.last().0 == ChunkSource::Mic {
                    assert(m[m.len() - 1].1 == k);
                } else {
                    assert(s[s.len() - 1].1 == k);
                }
            } else {
                assert(has_number(pm, k) || has_number(ps, k));
                if has_number(pm, k) {
                    let i = choose|i: int| 0 <= i < pm.len() && pm[i].1 == k;
                    assert(m[i] == pm[i]);
                } else {
                    let i = choose|i: int| 0 <= i < ps.len() && ps[i].1 == k;
                    assert(s[i] == ps[i]);
                }
            }
        }
    }
}

/// The labels any numbering order gives the two streams never collide, and
/// are exactly the numbers handed out (or `You` plus the renumbered system
/// side).
pub proof fn law_numbered_labels_never_collide(nb: Seq<(ChunkSource, Seq<char>)>, allow: bool)
    requires
        nums_for(nb, ChunkSource::Sys).len() <= usize::MAX,
    ensures
        labels_well_numbered(nb, allow),
{
    let mic = nums_for(nb, ChunkSource::Mic);
    let sys = nums_for(nb, ChunkSource::Sys);
    lemma_nums_for_shape(nb, ChunkSource::Mic);
    lemma_nums_for_shape(nb, ChunkSource::Sys);
    lemma_nums_cover(nb);
    let r = finalise(mic, sys, allow, nb.len() + 1);
    let all = label_list(r.0) + label_list(r.1);
    if allow && mic.len() == 1 {
        let keys = sys.map_values(|e: (Seq<char>, nat)| e.1 as int);
        law_stable_order_sorted(keys);
        assert(r.1.len() == sys.len());
        assert forall|i: int| 0 <= i < r.1.len() implies #[trigger] r.1[i].1 == speaker_k((i + 1) as nat) by {}
        assert forall|i: int, j: int| 0 <= i < j < all.len() implies all[i] != all[j] by {
            if i == 0 {
                assert(all[j] == r.1[j - 1].1);
                lemma_you_is_no_speaker(j as nat);
            } else {
                assert(all[i] == r.1[i - 1].1 && all[j] == r.1[j - 1].1);
                if all[i] == all[j] {
                    lemma_speaker_k_injective(i as nat, j as nat);
                }
            }
        }
    } else {
        let num = |i: int| if i < mic.len() { mic[i].1 } else { sys[i - mic.len()].1 };
        assert forall|i: int| 0 <= i < all.len() implies #[trigger] all[i] == speaker_k(num(i)) && 1 <= num(i) <= nb.len() by {
            if i < mic.len() {
                assert(all[i] == r.0[i].1);
            } else {
                assert(all[i] == r.1[i - mic.len()].1);
            }
        }
        assert forall|i: int, j: int| 0 <= i < j < all.len() implies all[i] != all[j] by {
            assert(all[i] == speaker_k(num(i)));
            assert(all[j] == speaker_k(num(j)));
            if all[i] == all[j] {
                lemma_speaker_k_injective(num(i), num(j));
                if i < mic.len() && j < mic.len() {
                    assert(mic[i].1 < mic[j].1);
                } else if i >= mic.len() && j >= mic.len() {
                    assert(sys[i - mic.len()].1 < sys[j - mic.len()].1);
                } else {
                    let a = mic[i];
                    let b = sys[j - mic.len()];
                    assert(nb[a.1 - 1].0 == ChunkSource::Mic);
                    assert(nb[b.1 - 1].0 == ChunkSource::Sys);
                }
            }
        }
        assert forall|i: int| 0 <= i < all.len() implies is_speaker_below(#[trigger] all[i], r.2) by {
            let k = num(i);
            assert(1 <= k < r.2 && all[i] == speaker_k(k));
        }
        assert forall|k: nat| 1 <= k < r.2 implies all.contains(#[trigger] speaker_k(k)) by {
            assert(has_number(mic, k) || has_number(sys, k));
            if has_number(mic, k) {
                let i = choose|i: int| 0 <= i < mic.len() && mic[i].1 == k;
                assert(all[i] == speaker_k(num(i)));
            } else {
                let i = choose|i: int| 0 <= i < sys.len() && sys[i].1 == k;
                assert(all[mic.len() + i] == speaker_k(num(mic.len() + i)));
            }
        }
        assert(exactly_numbered(all, r.2));
    }
}

proof fn lemma_nums_for_none(nb: Seq<(ChunkSource, Seq<char>)>, src: ChunkSource)
    requires
        forall|i: int| 0 <= i < nb.len() ==> (#[trigger] nb[i]).0 != src,
    ensures
        nums_for(nb, src).len() == 0,
    decreases nb.len(),
{
    if nb.len() > 0 {
        assert(nb[nb.len() - 1].0 != src);
        lemma_nums_for_none(nb.drop_last(), src);
    }
}

proof fn lemma_first_occ_none(evs: Seq<(ChunkSource, Seq<char>)>, src: ChunkSource)
    requires
        forall|i: int| 0 <= i < evs.len() ==> (#[trigger] evs[i]).0 != src,
    ensures
        nums_for(first_occ(evs), src).len() == 0,
{
    lemma_first_occ_no_dups(evs);
    let f = first_occ(evs);
    assert forall|i: int| 0 <= i < f.len() implies (#[trigger] f[i]).0 != src by {
        assert(f.contains(f[i]));
        assert(evs.contains(f[i]));
    }
    lemma_nums_for_none(f, src);
}

proof fn lemma_all_events_skip(cs: Seq<ChunkRecord>, mic: Seq<Segment>, sys: Seq<Segment>, src: ChunkSource)
    requires
        stream_segs(src, mic, sys).len() == 0,
    ensures
        forall|i: int|
            0 <= i < all_events(cs, mic, sys).len() ==> (#[trigger] all_events(cs, mic, sys)[i]).0 != src,
    decreases cs.len(),
{
    if cs.len() > 0 {
        lemma_all_events_skip(cs.drop_last(), mic, sys, src);
        let p = all_events(cs.drop_last(), mic, sys);
        let c = chunk_events(cs.last(), mic, sys);
        assert(all_events(cs, mic, sys) == p + c);
        assert forall|i: int| 0 <= i < c.len() implies (#[trigger] c[i]).0 != src by {
            if cs.last().source == src {
                assert(ids_at(stream_segs(src, mic, sys), crate::labels::lookup_times(cs.last())) =~= seq![]);
            }
        }
        assert forall|i: int| 0 <= i < (p + c).len() implies (#[trigger] (p + c)[i]).0 != src by {
            if i < p.len() {
                assert((p + c)[i] == p[i]);
            } else {
                assert((p + c)[i] == c[i - p.len()]);
            }
        }
    }
}

/// A hybrid recording's speakers: the mic and system labels never collide,
/// they are the numbers handed out (or `You` plus the renumbered system
/// side), and a stream with no diarizer segments gets no labels.
pub proof fn law_hybrid_labels_never_collide(chunks: Seq<ChunkRecord>, mic: Seq<Segment>, sys: Seq<Segment>)
    requires
        sys.len() <= usize::MAX,
    ensures
        labels_well_numbered(hybrid_numbering(chunks, mic, sys), true),
        mic.len() == 0 ==> nums_for(hybrid_numbering(chunks, mic, sys), ChunkSource::Mic).len() == 0,
        sys.len() == 0 ==> nums_for(hybrid_numbering(chunks, mic, sys), ChunkSource::Sys).len() == 0,
        mic.len() == 0 ==> finalise(
            nums_for(hybrid_numbering(chunks, mic, sys), ChunkSource::Mic),
            nums_for(hybrid_numbering(chunks, mic, sys), ChunkSource::Sys),
            true,
            hybrid_numbering(chunks, mic, sys).len() + 1,
        ).0.len() == 0,
        sys.len() == 0 ==> finalise(
            nums_for(hybrid_numbering(chunks, mic, sys), ChunkSource::Mic),
            nums_for(hybrid_numbering(chunks, mic, sys), ChunkSource::Sys),
            true,
            hybrid_numbering(chunks, mic, sys).len() + 1,
        ).1.len() == 0,
{
    let nb = hybrid_numbering(chunks, mic, sys);
    lemma_all_events_from(chrono(chunks), mic, sys);
    lemma_first_occ_from(all_events(chrono(chunks), mic, sys), sys);
    lemma_first_occ_no_dups(all_events(chrono(chunks), mic, sys));
    lemma_sys_count(nb, sys);
    law_numbered_labels_never_collide(nb, true);
    if mic.len() == 0 {
        lemma_all_events_skip(chrono(chunks), mic, sys, ChunkSource::Mic);
        lemma_first_occ_none(all_events(chrono(chunks), mic, sys), ChunkSource::Mic);
    }
    if sys.len() == 0 {
        lemma_all_events_skip(chrono(chunks), mic, sys, ChunkSource::Sys);
        lemma_first_occ_none(all_events(chrono(chunks), mic, sys), ChunkSource::Sys);
        let keys = nums_for(nb, ChunkSource::Sys).map_values(|e: (Seq<char>, nat)| e.1 as int);
        law_stable_order_sorted(keys);
    }
}

proof fn lemma_session_events_skip(
    cs: Seq<ChunkRecord>,
    mic_off: u64,
    sys_off: u64,
    mic: Seq<Segment>,
    sys: Seq<Segment>,
    src: ChunkSource,
)
    requires
        stream_segs(src, mic, sys).len() == 0,
    ensures
        forall|i: int|
            0 <= i < session_events(cs, mic_off, sys_off, mic, sys).len() ==> (#[trigger] session_events(
                cs,
                mic_off,
                sys_off,
                mic,
                sys,
            )[i]).0 != src,
    decreases cs.len(),
{
    if cs.len() > 0 {
        lemma_session_events_skip(cs.drop_last(), mic_off, sys_off, mic, sys, src);
        let p = session_events(cs.drop_last(), mic_off, sys_off, mic, sys);
        let c = session_chunk_events(cs.last(), mic_off, sys_off, mic, sys);
        assert forall|i: int| 0 <= i < c.len() implies (#[trigger] c[i]).0 != src by {}
        assert forall|i: int| 0 <= i < (p + c).len() implies (#[trigger] (p + c)[i]).0 != src by {
            if i < p.len() {
                assert((p + c)[i] == p[i]);
            } else {
                assert((p + c)[i] == c[i - p.len()]);
            }
        }
    }
}

proof fn lemma_unified_events_skip(sessions: Seq<UnifySession>, mic: Seq<Segment>, sys: Seq<Segment>, src: ChunkSource)
    requires
        stream_segs(src, mic, sys).len() == 0,
    ensures
        forall|i: int|
            0 <= i < unified_events(sessions, mic, sys).len() ==> (#[trigger] unified_events(
                sessions,
                mic,
                sys,
            )[i]).0 != src,
    decreases sessions.len(),
{
    if sessions.len() > 0 {
        lemma_unified_events_skip(sessions.drop_last(), mic, sys, src);
        let s = sessions.last();
        let p = unified_events(sessions.drop_last(), mic, sys);
        let c = session_events(chrono(s.chunks@), s.mic_offset_ms, s.sys_offset_ms, mic, sys);
        lemma_session_events_skip(chrono(s.chunks@), s.mic_offset_ms, s.sys_offset_ms, mic, sys, src);
        assert forall|i: int| 0 <= i < (p + c).len() implies (#[trigger] (p + c)[i]).0 != src by {
            if i < p.len() {
                assert((p + c)[i] == p[i]);
            } else {
                assert((p + c)[i] == c[i - p.len()]);
            }
        }
    }
}

/// The note-wide unify pass's speakers: the same guarantees as a single
/// take's, over the numbering of the whole note.
pub proof fn law_unified_labels_never_collide(sessions: Seq<UnifySession>, mic: Seq<Segment>, sys: Seq<Segment>)
    requires
        sys.len() <= usize::MAX,
    ensures
        labels_well_numbered(unified_numbering(sessions, mic, sys), allow_you(sessions)),
        mic.len() == 0 ==> nums_for(unified_numbering(sessions, mic, sys), ChunkSource::Mic).len() == 0,
        sys.len() == 0 ==> nums_for(unified_numbering(sessions, mic, sys), ChunkSource::Sys).len() == 0,
        mic.len() == 0 ==> finalise(
            nums_for(unified_numbering(sessions, mic, sys), ChunkSource::Mic),
            nums_for(unified_numbering(sessions, mic, sys), ChunkSource::Sys),
            allow_you(sessions),
            unified_numbering(sessions, mic, sys).len() + 1,
        ).0.len() == 0,
        sys.len() == 0 ==> finalise(
            nums_for(unified_numbering(sessions, mic, sys), ChunkSource::Mic),
            nums_for(unified_numbering(sessions, mic, sys), ChunkSource::Sys),
            allow_you(sessions),
            unified_numbering(sessions, mic, sys).len() + 1,
        ).1.len() == 0,
{
    lemma_unified_events_from(sessions, mic, sys);
    lemma_first_occ_from(unified_events(sessions, mic, sys), sys);
    lemma_first_occ_no_dups(unified_events(sessions, mic, sys));
    lemma_sys_count(unified_numbering(sessions, mic, sys), sys);
    law_numbered_labels_never_collide(unified_numbering(sessions, mic, sys), allow_you(sessions));
    if mic.len() == 0 {
        lemma_unified_events_skip(sessions, mic, sys, ChunkSource::Mic);
        lemma_first_occ_none(unified_events(sessions, mic, sys), ChunkSource::Mic);
    }
    if sys.len() == 0 {
        lemma_unified_events_skip(sessions, mic, sys, ChunkSource::Sys);
        lemma_first_occ_none(unified_events(sessions, mic, sys), ChunkSource::Sys);
        let keys = nums_for(unified_numbering(sessions, mic, sys), ChunkSource::Sys).map_values(
            |e: (Seq<char>, nat)| e.1 as int,
        );
        law_stable_order_sorted(keys);
    }
}

// ---------------------------------------------------------------------------
// There are no more system voices than system segments
// ---------------------------------------------------------------------------

/// Every system-stream id in `evs` is the id of some segment of `sys`.
pub open spec fn sys_ids_from(evs: Seq<(ChunkSource, Seq<char>)>, sys: Seq<Segment>) -> bool {
    forall|i: int|
        0 <= i < evs.len() && (#[trigger] evs[i]).0 == ChunkSource::Sys ==> exists|k: int|
            0 <= k < sys.len() && sys[k].speaker_id@ == evs[i].1
}

/// The ids of `sys`.
pub open spec fn segment_ids(sys: Seq<Segment>) -> Seq<Seq<char>> {
    sys.map_values(|s: Segment| s.speaker_id@)
}

proof fn lemma_ids_at_from(segs: Seq<Segment>, ts: Seq<u64>, src: ChunkSource, sys: Seq<Segment>)
    requires
        src == ChunkSource::Sys ==> segs == sys,
    ensures
        sys_ids_from(ids_at(segs, ts).map_values(|id: Seq<char>| (src, id)), sys),
{
    let e = ids_at(segs, ts).map_values(|id: Seq<char>| (src, id));
    assert forall|i: int| 0 <= i < e.len() && (#[trigger] e[i]).0 == ChunkSource::Sys implies exists|k: int|
        0 <= k < sys.len() && sys[k].speaker_id@ == e[i].1 by {
        crate::labels::lemma_assigned_bounds(segs, ts[i]);
        let k = crate::labels::assigned(segs, ts[i]);
        assert(sys[k].speaker_id@ == e[i].1);
    }
}

proof fn lemma_concat_from(a: Seq<(ChunkSource, Seq<char>)>, b: Seq<(ChunkSource, Seq<char>)>, sys: Seq<Segment>)
    requires
        sys_ids_from(a, sys),
        sys_ids_from(b, sys),
    ensures
        sys_ids_from(a + b, sys),
{
    assert forall|i: int| 0 <= i < (a + b).len() && (#[trigger] (a + b)[i]).0 == ChunkSource::Sys implies exists|k: int|
        0 <= k < sys.len() && sys[k].speaker_id@ == (a + b)[i].1 by {
        if i < a.len() {
            assert((a + b)[i] == a[i]);
        } else {
            assert((a + b)[i] == b[i - a.len()]);
        }
    }
}

proof fn lemma_all_events_from(cs: Seq<ChunkRecord>, mic: Seq<Segment>, sys: Seq<Segment>)
    ensures
        sys_ids_from(all_events(cs, mic, sys), sys),
    decreases cs.len(),
{
    if cs.len() > 0 {
        lemma_all_events_from(cs.drop_last(), mic, sys);
        let c = cs.last();
        lemma_ids_at_from(stream_segs(c.source, mic, sys), crate::labels::lookup_times(c), c.source, sys);
        lemma_concat_from(all_events(cs.drop_last(), mic, sys), chunk_events(c, mic, sys), sys);
    }
}

proof fn lemma_session_events_from(
    cs: Seq<ChunkRecord>,
    mic_off: u64,
    sys_off: u64,
    mic: Seq<Segment>,
    sys: Seq<Segment>,
)
    ensures
        sys_ids_from(session_events(cs, mic_off, sys_off, mic, sys), sys),
    decreases cs.len(),
{
    if cs.len() > 0 {
        lemma_session_events_from(cs.drop_last(), mic_off, sys_off, mic, sys);
        let c = cs.last();
        let off = match c.source {
            ChunkSource::Mic => mic_off,
            ChunkSource::Sys => sys_off,
        };
        lemma_ids_at_from(stream_segs(c.source, mic, sys), crate::sessions::shifted_times(c, off), c.source, sys);
        lemma_concat_from(
            session_events(cs.drop_last(), mic_off, sys_off, mic, sys),
            session_chunk_events(c, mic_off, sys_off, mic, sys),
            sys,
        );
    }
}

proof fn lemma_unified_events_from(sessions: Seq<UnifySession>, mic: Seq<Segment>, sys: Seq<Segment>)
    ensures
        sys_ids_from(unified_events(sessions, mic, sys), sys),
    decreases sessions.len(),
{
    if sessions.len() > 0 {
        lemma_unified_events_from(sessions.drop_last(), mic, sys);
        let s = sessions.last();
        lemma_session_events_from(chrono(s.chunks@), s.mic_offset_ms, s.sys_offset_ms, mic, sys);
        lemma_concat_from(
            unified_events(sessions.drop_last(), mic, sys),
            session_events(chrono(s.chunks@), s.mic_offset_ms, s.sys_offset_ms, mic, sys),
            sys,
        );
    }
}

proof fn lemma_first_occ_from(evs: Seq<(ChunkSource, Seq<char>)>, sys: Seq<Segment>)
    requires
        sys_ids_from(evs, sys),
    ensures
        sys_ids_from(first_occ(evs), sys),
{
    lemma_first_occ_no_dups(evs);
    let f = first_occ(evs);
    assert forall|i: int| 0 <= i < f.len() && (#[trigger] f[i]).0 == ChunkSource::Sys implies exists|k: int|
        0 <= k < sys.len() && sys[k].speaker_id@ == f[i].1 by {
        assert(f.contains(f[i]));
        assert(evs.contains(f[i]));
        let j = choose|j: int| 0 <= j < evs.len() && evs[j] == f[i];
        assert(evs[j].0 == ChunkSource::Sys);
    }
}

/// A numbering without repeats whose system ids all come from `sys` numbers
/// no more system voices than `sys` has segments.
proof fn lemma_sys_count(nb: Seq<(ChunkSource, Seq<char>)>, sys: Seq<Segment>)
    requires
        nb.no_duplicates(),
        sys_ids_from(nb, sys),
    ensures
        nums_for(nb, ChunkSource::Sys).len() <= sys.len(),
{
    let ns = nums_for(nb, ChunkSource::Sys);
    lemma_nums_for_shape(nb, ChunkSource::Sys);
    let ids = ns.map_values(|e: (Seq<char>, nat)| e.0);
    assert forall|i: int, j: int| 0 <= i < ids.len() && 0 <= j < ids.len() && i != j implies ids[i] != ids[j] by {
        assert(nb[ns[i].1 - 1] == (ChunkSource::Sys, ns[i].0));
        assert(nb[ns[j].1 - 1] == (ChunkSource::Sys, ns[j].0));
        if i < j {
            assert(ns[i].1 < ns[j].1);
        } else {
            assert(ns[j].1 < ns[i].1);
        }
    }
    assert(ids.no_duplicates());
    ids.unique_seq_to_set();
    let segids = segment_ids(sys);
    segids.lemma_cardinality_of_set();
    assert(ids.to_set().subset_of(segids.to_set())) by {
        assert forall|x: Seq<char>| ids.to_set().contains(x) implies segids.to_set().contains(x) by {
            assert(ids.contains(x));
            let i = choose|i: int| 0 <= i < ids.len() && ids[i] == x;
            let p = ns[i].1 - 1;
            assert(nb[p] == (ChunkSource::Sys, ns[i].0));
            assert(nb[p].0 == ChunkSource::Sys);
            let k = choose|k: int| 0 <= k < sys.len() && sys[k].speaker_id@ == nb[p].1;
            assert(segids[k] == x);
            assert(segids.contains(x));
        }
    }
    vstd::set_lib::lemma_len_subset(ids.to_set(), segids.to_set());
}

} // verus!
