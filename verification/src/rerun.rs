//! Re-running the note-wide unify pass on its own output: the same audio
//! gives the same clusters, and the names the first run carried over are
//! carried over again, unchanged and without new notices.
use vstd::prelude::*;
use crate::diarize::{shifted, unified_split};
use crate::labels::{
    label_at, lookup_pairs, piece_views, seqs_of_strings, split_spec, word_abs, HybridLabels, LabelMap,
};
use crate::renames::{
    carries, credits_fit, has_credit, is_ranking, law_renames_map_generated_to_custom, lemma_str_less_irrefl,
    name_credit, notices_of, paired, renames_ok, session_credit, span_credit, str_less, total_credit,
};
use crate::sessions::{overlap_ms, unified_events, unified_numbering, LabelSpan, SessionMode, UnifySession};
use crate::timeline::{chunk_entries, entry_base, entry_bases, record_view, timeline_spec, TimelineRecord};
use crate::transcript::{handed_in_order, nonblank_pieces};
use crate::types::{ChunkRecord, ChunkWord, LabelledPiece, Segment};
use crate::unify::{
    allow_you, carried, carried_label, record_views, session_records_ok, span_matches, spans_match, timelines_ok,
    unify_labels_ok, unify_result, RecordView, UnifyOutcome,
};

verus! {

// ---------------------------------------------------------------------------
// Looking names up
// ---------------------------------------------------------------------------

/// The keys of a rename map, in order.
pub open spec fn keys_of(ps: Seq<(Seq<char>, Seq<char>)>) -> Seq<Seq<char>> {
    ps.map_values(|p: (Seq<char>, Seq<char>)| p.0)
}

/// Keys in strictly ascending order.
pub open spec fn keys_ascending(ps: Seq<(Seq<char>, Seq<char>)>) -> bool {
    forall|i: int, j: int| 0 <= i < j < ps.len() ==> str_less(#[trigger] ps[i].0, #[trigger] ps[j].0)
}

proof fn lemma_lookup_at(ps: Seq<(Seq<char>, Seq<char>)>, i: int)
    requires
        keys_ascending(ps),
        0 <= i < ps.len(),
    ensures
        lookup_pairs(ps, ps[i].0) == Some(ps[i].1),
    decreases i,
{
    if i > 0 {
        let k = ps[i].0;
        assert(str_less(ps[0].0, ps[i].0));
        lemma_str_less_irrefl(k);
        let d = ps.drop_first();
        assert forall|a: int, b: int| 0 <= a < b < d.len() implies str_less(#[trigger] d[a].0, #[trigger] d[b].0) by {
            assert(d[a] == ps[a + 1] && d[b] == ps[b + 1]);
        }
        lemma_lookup_at(d, i - 1);
        assert(d[i - 1] == ps[i]);
    }
}

proof fn lemma_lookup_absent(ps: Seq<(Seq<char>, Seq<char>)>, k: Seq<char>)
    requires
        !keys_of(ps).contains(k),
    ensures
        lookup_pairs(ps, k) is None,
    decreases ps.len(),
{
    if ps.len() > 0 {
        assert(keys_of(ps)[0] == ps[0].0);
        let d = ps.drop_first();
        assert forall|j: int| 0 <= j < d.len() implies keys_of(d)[j] != k by {
            assert(keys_of(d)[j] == keys_of(ps)[j + 1]);
        }
        lemma_lookup_absent(d, k);
    }
}

/// Rankings of one name each give no notice.
proof fn lemma_no_notices(rks: Seq<Seq<Seq<char>>>)
    requires
        forall|i: int| 0 <= i < rks.len() ==> (#[trigger] rks[i]).len() == 1,
    ensures
        notices_of(rks) == Seq::<Seq<char>>::empty(),
    decreases rks.len(),
{
    if rks.len() > 0 {
        let d = rks.drop_last();
        assert forall|i: int| 0 <= i < d.len() implies (#[trigger] d[i]).len() == 1 by {
            assert(d[i] == rks[i]);
        }
        lemma_no_notices(d);
        assert(rks[rks.len() - 1].len() == 1);
    }
}

/// A list without repeats that holds `a` and nothing else is `[a]`.
proof fn lemma_only_element(rs: Seq<Seq<char>>, a: Seq<char>)
    requires
        rs.no_duplicates(),
        rs.contains(a),
        forall|i: int| 0 <= i < rs.len() ==> rs[i] == a,
    ensures
        rs == seq![a],
{
    if rs.len() >= 2 {
        assert(rs[0] == a && rs[1] == a);
    }
    assert(rs =~= seq![a]);
}

// ---------------------------------------------------------------------------
// Sums of shared speech time
// ---------------------------------------------------------------------------

proof fn lemma_session_credit_zero(
    news: Seq<LabelSpan>,
    olds: Seq<LabelSpan>,
    k: Seq<char>,
    x: Seq<char>,
    m: int,
)
    requires
        forall|j: int|
            0 <= j < m && j < news.len() && (#[trigger] news[j]).label@ == k ==> span_credit(
                news[j],
                olds,
                x,
                olds.len() as int,
            ) == 0,
        m <= news.len(),
    ensures
        session_credit(news, olds, k, x, m) == 0,
    decreases m,
{
    if m > 0 {
        lemma_session_credit_zero(news, olds, k, x, m - 1);
        assert(news[m - 1].label@ == k ==> span_credit(news[m - 1], olds, x, olds.len() as int) == 0);
    }
}

proof fn lemma_session_credit_pos(
    news: Seq<LabelSpan>,
    olds: Seq<LabelSpan>,
    k: Seq<char>,
    x: Seq<char>,
    m: int,
    j: int,
)
    requires
        0 <= j < m <= news.len(),
        news[j].label@ == k,
        span_credit(news[j], olds, x, olds.len() as int) > 0,
    ensures
        session_credit(news, olds, k, x, m) > 0,
    decreases m,
{
    if j < m - 1 {
        lemma_session_credit_pos(news, olds, k, x, m - 1, j);
    }
}

proof fn lemma_name_credit_zero(
    news: Seq<Vec<LabelSpan>>,
    olds: Seq<Vec<LabelSpan>>,
    k: Seq<char>,
    x: Seq<char>,
    s: int,
)
    requires
        s <= news.len(),
        s <= olds.len(),
        forall|t: int|
            0 <= t < s ==> session_credit(
                (#[trigger] news[t])@,
                olds[t]@,
                k,
                x,
                news[t]@.len() as int,
            ) == 0,
    ensures
        name_credit(news, olds, k, x, s) == 0,
    decreases s,
{
    if s > 0 {
        lemma_name_credit_zero(news, olds, k, x, s - 1);
        assert(session_credit(news[s - 1]@, olds[s - 1]@, k, x, news[s - 1]@.len() as int) == 0);
    }
}

proof fn lemma_name_credit_pos(
    news: Seq<Vec<LabelSpan>>,
    olds: Seq<Vec<LabelSpan>>,
    k: Seq<char>,
    x: Seq<char>,
    s: int,
    t: int,
)
    requires
        0 <= t < s,
        session_credit(news[t]@, olds[t]@, k, x, news[t]@.len() as int) > 0,
    ensures
        name_credit(news, olds, k, x, s) > 0,
    decreases s,
{
    if t < s - 1 {
        lemma_name_credit_pos(news, olds, k, x, s - 1, t);
    }
}

/// A positive share of time comes from some new span labelled `k` in one
/// of the first `s` sessions that overlaps an old span it may carry.
proof fn lemma_name_credit_source(
    news: Seq<Vec<LabelSpan>>,
    olds: Seq<Vec<LabelSpan>>,
    k: Seq<char>,
    x: Seq<char>,
    s: int,
) -> (w: (int, int))
    requires
        name_credit(news, olds, k, x, s) > 0,
    ensures
        0 <= w.0 < s,
        0 <= w.1 < news[w.0]@.len(),
        news[w.0]@[w.1].label@ == k,
        news[w.0]@[w.1].start_ms < news[w.0]@[w.1].end_ms,
    decreases s,
{
    if name_credit(news, olds, k, x, s - 1) > 0 {
        lemma_name_credit_source(news, olds, k, x, s - 1)
    } else {
        let j = lemma_session_credit_source(news[s - 1]@, olds[s - 1]@, k, x, news[s - 1]@.len() as int);
        (s - 1, j)
    }
}

proof fn lemma_session_credit_source(
    news: Seq<LabelSpan>,
    olds: Seq<LabelSpan>,
    k: Seq<char>,
    x: Seq<char>,
    m: int,
) -> (j: int)
    requires
        session_credit(news, olds, k, x, m) > 0,
        m <= news.len(),
    ensures
        0 <= j < m,
        j < news.len(),
        news[j].label@ == k,
        news[j].start_ms < news[j].end_ms,
    decreases m,
{
    if session_credit(news, olds, k, x, m - 1) > 0 {
        lemma_session_credit_source(news, olds, k, x, m - 1)
    } else {
        lemma_span_credit_source(news[m - 1], olds, x, olds.len() as int);
        m - 1
    }
}

proof fn lemma_span_credit_source(n: LabelSpan, olds: Seq<LabelSpan>, x: Seq<char>, m: int)
    requires
        span_credit(n, olds, x, m) > 0,
    ensures
        n.start_ms < n.end_ms,
    decreases m,
{
    if span_credit(n, olds, x, m - 1) > 0 {
        lemma_span_credit_source(n, olds, x, m - 1);
    } else {
        let o = olds[m - 1];
        assert(overlap_ms(n.start_ms, n.end_ms, o.start_ms, o.end_ms) > 0);
    }
}

// ---------------------------------------------------------------------------
// One session's records, none overlapping another on its stream
// ---------------------------------------------------------------------------

/// No two records of `row` on the same stream share any time.
pub open spec fn row_disjoint(row: Seq<RecordView>) -> bool {
    forall|a: int, b: int|
        0 <= a < row.len() && 0 <= b < row.len() && a != b ==> (#[trigger] row[a]).5 != (#[trigger] row[b]).5
            || overlap_ms(row[a].0, row[a].1, row[b].0, row[b].1) == 0
}

/// Span `sp` covers the time and stream of record `r`.
pub open spec fn span_on(sp: LabelSpan, r: RecordView) -> bool {
    sp.start_ms == r.0 && sp.end_ms == r.1 && sp.source == Some(r.5)
}

/// `olds` covers the records of `row` one for one.
pub open spec fn spans_on(olds: Seq<LabelSpan>, row: Seq<RecordView>) -> bool {
    olds.len() == row.len() && forall|j: int| 0 <= j < row.len() ==> span_on(#[trigger] olds[j], row[j])
}

/// Against spans laid over disjoint records, a span shares time only with
/// the one laid over its own record.
proof fn lemma_span_credit_diag(
    n: LabelSpan,
    olds: Seq<LabelSpan>,
    row: Seq<RecordView>,
    j: int,
    x: Seq<char>,
    t: int,
)
    requires
        row_disjoint(row),
        spans_on(olds, row),
        0 <= j < row.len(),
        span_on(n, row[j]),
        0 <= t <= olds.len(),
    ensures
        span_credit(n, olds, x, t) == (if j < t && carries(n, olds[j]) && olds[j].label@ == x {
            overlap_ms(n.start_ms, n.end_ms, n.start_ms, n.end_ms) as nat
        } else {
            0nat
        }),
    decreases t,
{
    if t > 0 {
        lemma_span_credit_diag(n, olds, row, j, x, t - 1);
        let o = olds[t - 1];
        assert(span_on(o, row[t - 1]));
        if t - 1 != j {
            assert(row[j].5 != row[t - 1].5 || overlap_ms(row[j].0, row[j].1, row[t - 1].0, row[t - 1].1) == 0);
        }
    }
}

// ---------------------------------------------------------------------------
// The carry-over run again on its own output
// ---------------------------------------------------------------------------

/// `olds2` holds, session by session, the spans of the records `pre` after
/// the first run carried names over them through `rm`.
pub open spec fn carried_spans(
    olds2: Seq<Vec<LabelSpan>>,
    pre: Seq<Seq<RecordView>>,
    rm: Seq<(Seq<char>, Seq<char>)>,
) -> bool {
    &&& olds2.len() == pre.len()
    &&& forall|i: int|
        0 <= i < pre.len() ==> spans_on((#[trigger] olds2[i])@, pre[i]) && forall|j: int|
            0 <= j < pre[i].len() ==> (#[trigger] olds2[i]@[j]).label@ == carried_label(pre[i][j].2, rm)
}

/// What both runs share: the same records `pre` (so the same new spans),
/// the first run's rename map over its old spans, and the second run's old
/// spans taken from the first run's output; within a session no two
/// records on one stream overlap.
pub open spec fn rerun_setup(
    pre: Seq<Seq<RecordView>>,
    news: Seq<Vec<LabelSpan>>,
    olds: Seq<Vec<LabelSpan>>,
    rm1: Seq<(Seq<char>, Seq<char>)>,
    n1: Seq<Seq<char>>,
    news2: Seq<Vec<LabelSpan>>,
    olds2: Seq<Vec<LabelSpan>>,
) -> bool {
    &&& spans_match(news, pre)
    &&& olds.len() == pre.len()
    &&& renames_ok(news, olds, rm1, n1)
    &&& spans_match(news2, pre)
    &&& carried_spans(olds2, pre, rm1)
    &&& forall|i: int| 0 <= i < pre.len() ==> row_disjoint(#[trigger] pre[i])
}

/// A name the first run maps `k` to shares time with `k` in that run.
proof fn lemma_first_map(
    news: Seq<Vec<LabelSpan>>,
    olds: Seq<Vec<LabelSpan>>,
    rm1: Seq<(Seq<char>, Seq<char>)>,
    n1: Seq<Seq<char>>,
    k: Seq<char>,
)
    requires
        renames_ok(news, olds, rm1, n1),
    ensures
        lookup_pairs(rm1, k) matches Some(nm) ==> total_credit(news, olds, k, nm) > 0,
{
    if keys_of(rm1).contains(k) {
        let i = choose|i: int| 0 <= i < keys_of(rm1).len() && keys_of(rm1)[i] == k;
        assert(rm1[i].0 == k);
        lemma_lookup_at(rm1, i);
        let rks = choose|rks: Seq<Seq<Seq<char>>>|
            #![trigger notices_of(rks)]
            rks.len() == rm1.len() && (forall|a: int|
                0 <= a < rks.len() ==> is_ranking(news, olds, rm1[a].0, #[trigger] rks[a]) && rks[a].len() > 0
                    && rm1[a].1 == rks[a][0]) && n1 == notices_of(rks);
        assert(is_ranking(news, olds, rm1[i].0, rks[i]));
        assert(rks[i].contains(rks[i][0]));
    } else {
        lemma_lookup_absent(rm1, k);
    }
}

/// In the second run, `k` shares time with `x` exactly when the first run
/// mapped `k` to `x`.
proof fn lemma_second_credit(
    pre: Seq<Seq<RecordView>>,
    news: Seq<Vec<LabelSpan>>,
    olds: Seq<Vec<LabelSpan>>,
    rm1: Seq<(Seq<char>, Seq<char>)>,
    n1: Seq<Seq<char>>,
    news2: Seq<Vec<LabelSpan>>,
    olds2: Seq<Vec<LabelSpan>>,
    k: Seq<char>,
    x: Seq<char>,
)
    requires
        rerun_setup(pre, news, olds, rm1, n1, news2, olds2),
    ensures
        (total_credit(news2, olds2, k, x) > 0) == (lookup_pairs(rm1, k) == Some(x)),
{
    lemma_first_map(news, olds, rm1, n1, k);
    assert(paired(news2, olds2) == pre.len());
    // The share of one new span of the second run labelled `k`.
    assert forall|t: int, j: int|
        0 <= t < pre.len() && 0 <= j < news2[t]@.len() && (#[trigger] news2[t]@[j]).label@ == k
            implies span_credit(news2[t]@[j], olds2[t]@, x, olds2[t]@.len() as int) == (if carries(
            news2[t]@[j],
            olds2[t]@[j],
        ) && carried_label(k, rm1) == x {
            overlap_ms(news2[t]@[j].start_ms, news2[t]@[j].end_ms, news2[t]@[j].start_ms, news2[t]@[j].end_ms) as nat
        } else {
            0nat
        }) by {
        assert(spans_on(olds2[t]@, pre[t]));
        assert(row_disjoint(pre[t]));
        assert(span_matches(news2[t]@[j], pre[t][j]));
        assert(olds2[t]@[j].label@ == carried_label(pre[t][j].2, rm1));
        lemma_span_credit_diag(news2[t]@[j], olds2[t]@, pre[t], j, x, olds2[t]@.len() as int);
    }
    match lookup_pairs(rm1, k) {
        Some(nm) => {
            law_renames_map_generated_to_custom(news, olds, k, nm);
            if nm == x {
                let w = lemma_name_credit_source(news, olds, k, nm, paired(news, olds));
                let (t, j) = (w.0, w.1);
                assert(span_matches(news[t]@[j], pre[t][j]));
                assert(span_matches(news2[t]@[j], pre[t][j]));
                let n = news2[t]@[j];
                assert(olds2[t]@[j].label@ == carried_label(pre[t][j].2, rm1));
                assert(span_on(olds2[t]@[j], pre[t][j]));
                assert(carries(n, olds2[t]@[j]));
                lemma_session_credit_pos(news2[t]@, olds2[t]@, k, x, news2[t]@.len() as int, j);
                lemma_name_credit_pos(news2, olds2, k, x, pre.len() as int, t);
            } else {
                assert forall|t: int| 0 <= t < pre.len() implies session_credit(
                    (#[trigger] news2[t])@,
                    olds2[t]@,
                    k,
                    x,
                    news2[t]@.len() as int,
                ) == 0 by {
                    lemma_session_credit_zero(news2[t]@, olds2[t]@, k, x, news2[t]@.len() as int);
                }
                lemma_name_credit_zero(news2, olds2, k, x, pre.len() as int);
            }
        },
        None => {
            assert forall|t: int| 0 <= t < pre.len() implies session_credit(
                (#[trigger] news2[t])@,
                olds2[t]@,
                k,
                x,
                news2[t]@.len() as int,
            ) == 0 by {
                assert forall|j: int|
                    0 <= j < news2[t]@.len() && (#[trigger] news2[t]@[j]).label@ == k implies span_credit(
                    news2[t]@[j],
                    olds2[t]@,
                    x,
                    olds2[t]@.len() as int,
                ) == 0 by {
                    assert(olds2[t]@[j].label@ == carried_label(pre[t][j].2, rm1));
                    assert(span_matches(news2[t]@[j], pre[t][j]));
                }
                lemma_session_credit_zero(news2[t]@, olds2[t]@, k, x, news2[t]@.len() as int);
            }
            lemma_name_credit_zero(news2, olds2, k, x, pre.len() as int);
        },
    }
}

/// The carry-over of a second run over the first run's output: every label
/// is carried to the same name as the first time (or stays itself as it
/// did), and no collision notice comes up.
pub proof fn lemma_carry_over_rerun(
    pre: Seq<Seq<RecordView>>,
    news: Seq<Vec<LabelSpan>>,
    olds: Seq<Vec<LabelSpan>>,
    rm1: Seq<(Seq<char>, Seq<char>)>,
    n1: Seq<Seq<char>>,
    news2: Seq<Vec<LabelSpan>>,
    olds2: Seq<Vec<LabelSpan>>,
    rm2: Seq<(Seq<char>, Seq<char>)>,
    n2: Seq<Seq<char>>,
)
    requires
        rerun_setup(pre, news, olds, rm1, n1, news2, olds2),
        renames_ok(news2, olds2, rm2, n2),
    ensures
        forall|k: Seq<char>| #[trigger] carried_label(k, rm2) == carried_label(k, rm1),
        n2 == Seq::<Seq<char>>::empty(),
{
    let rks = choose|rks: Seq<Seq<Seq<char>>>|
        #![trigger notices_of(rks)]
        rks.len() == rm2.len() && (forall|a: int|
            0 <= a < rks.len() ==> is_ranking(news2, olds2, rm2[a].0, #[trigger] rks[a]) && rks[a].len() > 0
                && rm2[a].1 == rks[a][0]) && n2 == notices_of(rks);
    // Each ranking of the second run is the first run's name alone.
    assert forall|a: int| 0 <= a < rks.len() implies (#[trigger] rks[a]).len() == 1 && lookup_pairs(
        rm1,
        rm2[a].0,
    ) == Some(rm2[a].1) by {
        let k = rm2[a].0;
        let rs = rks[a];
        assert(is_ranking(news2, olds2, k, rs));
        assert(rs.contains(rs[0]));
        lemma_second_credit(pre, news, olds, rm1, n1, news2, olds2, k, rs[0]);
        assert forall|i: int| 0 <= i < rs.len() implies #[trigger] rs[i] == rs[0] by {
            assert(rs.contains(rs[i]));
            lemma_second_credit(pre, news, olds, rm1, n1, news2, olds2, k, rs[i]);
        }
        lemma_only_element(rs, rs[0]);
    }
    lemma_no_notices(rks);
    assert forall|k: Seq<char>| #[trigger] carried_label(k, rm2) == carried_label(k, rm1) by {
        if keys_of(rm2).contains(k) {
            let a = choose|a: int| 0 <= a < keys_of(rm2).len() && keys_of(rm2)[a] == k;
            assert(rm2[a].0 == k);
            lemma_lookup_at(rm2, a);
            assert(rks[a].len() == 1);
        } else {
            lemma_lookup_absent(rm2, k);
            if let Some(nm) = lookup_pairs(rm1, k) {
                lemma_second_credit(pre, news, olds, rm1, n1, news2, olds2, k, nm);
                assert(has_credit(news2, olds2, k));
                assert(rm2.map_values(|p: (Seq<char>, Seq<char>)| p.0) =~= keys_of(rm2));
                assert(false);
            }
        }
    }
}

// ---------------------------------------------------------------------------
// The same audio gives the same records
// ---------------------------------------------------------------------------

/// Two chunks agree on every field the splitters and the timeline read.
pub open spec fn alike(c: ChunkRecord, d: ChunkRecord) -> bool {
    c.source == d.source && c.start_ms == d.start_ms && c.text@ == d.text@ && c.words@ == d.words@
}

proof fn lemma_split_spec_alike(c: ChunkRecord, d: ChunkRecord, segs: Seq<Segment>, l1: LabelMap, l2: LabelMap)
    requires
        alike(c, d),
        l1.pairs() == l2.pairs(),
    ensures
        split_spec(c, segs, l1) == split_spec(d, segs, l2),
{
    assert forall|t: u64| label_at(segs, l1, t) == label_at(segs, l2, t) by {}
    let a = c.words@.map_values(|w: ChunkWord| label_at(segs, l1, word_abs(c.start_ms, w)));
    let b = d.words@.map_values(|w: ChunkWord| label_at(segs, l2, word_abs(d.start_ms, w)));
    assert(a =~= b);
}

proof fn lemma_unified_split_alike(
    c: ChunkRecord,
    d: ChunkRecord,
    mo: u64,
    so: u64,
    mic: Seq<Segment>,
    sys: Seq<Segment>,
    m1: LabelMap,
    s1: LabelMap,
    m2: LabelMap,
    s2: LabelMap,
)
    requires
        alike(c, d),
        m1.pairs() == m2.pairs(),
        s1.pairs() == s2.pairs(),
    ensures
        unified_split(c, mo, so, mic, sys, m1, s1) == unified_split(d, mo, so, mic, sys, m2, s2),
{
    lemma_split_spec_alike(shifted(c, mo), shifted(d, mo), mic, m1, m2);
    lemma_split_spec_alike(shifted(c, so), shifted(d, so), sys, s1, s2);
}

proof fn lemma_entry_bases_alike(
    h1: Seq<ChunkRecord>,
    h2: Seq<ChunkRecord>,
    o1: Seq<Vec<LabelledPiece>>,
    o2: Seq<Vec<LabelledPiece>>,
)
    requires
        h1.len() == h2.len(),
        o1.len() == o2.len(),
        o1.len() <= h1.len(),
        forall|j: int| 0 <= j < h1.len() ==> alike(#[trigger] h1[j], h2[j]),
        forall|j: int| 0 <= j < o1.len() ==> piece_views((#[trigger] o1[j])@) == piece_views(o2[j]@),
    ensures
        entry_bases(h1, o1) == entry_bases(h2, o2),
        nonblank_pieces(o1) == nonblank_pieces(o2),
    decreases o1.len(),
{
    if o1.len() > 0 {
        let d1 = o1.drop_last();
        let d2 = o2.drop_last();
        assert forall|j: int| 0 <= j < d1.len() implies piece_views((#[trigger] d1[j])@) == piece_views(d2[j]@) by {
            assert(d1[j] == o1[j] && d2[j] == o2[j]);
        }
        lemma_entry_bases_alike(h1, h2, d1, d2);
        let k = o1.len() - 1;
        assert(piece_views(o1[k]@) == piece_views(o2[k]@));
        assert(alike(h1[k], h2[k]));
        let pv = piece_views(o1.last()@);
        assert forall|p| entry_base(h1[k], p) == entry_base(h2[k], p) by {}
        assert(chunk_entries(h1[k], pv) =~= chunk_entries(h2[k], pv));
    }
}

/// Two sessions with the same chunks and offsets, split with labels of the
/// same pairs, give the same records.
pub proof fn lemma_records_determined(
    a: UnifySession,
    b: UnifySession,
    mic: Seq<Segment>,
    sys: Seq<Segment>,
    l1: HybridLabels,
    l2: HybridLabels,
    label_offset: u32,
    ra: Seq<RecordView>,
    rb: Seq<RecordView>,
)
    requires
        a.chunks@ == b.chunks@,
        a.mic_offset_ms == b.mic_offset_ms,
        a.sys_offset_ms == b.sys_offset_ms,
        l1.mic.pairs() == l2.mic.pairs(),
        l1.sys.pairs() == l2.sys.pairs(),
        session_records_ok(a, mic, sys, l1, label_offset, ra),
        session_records_ok(b, mic, sys, l2, label_offset, rb),
    ensures
        ra == rb,
{
    let (h1, o1) = choose|handed: Seq<ChunkRecord>, outs: Seq<Vec<LabelledPiece>>|
        #![trigger handed_in_order(a.chunks@, handed), timeline_spec(handed, outs, label_offset)]
        handed_in_order(a.chunks@, handed) && outs.len() == handed.len() && (forall|j: int|
            0 <= j < outs.len() ==> piece_views((#[trigger] outs[j])@) == unified_split(
                handed[j],
                a.mic_offset_ms,
                a.sys_offset_ms,
                mic,
                sys,
                l1.mic,
                l1.sys,
            )) && ra == timeline_spec(handed, outs, label_offset);
    let (h2, o2) = choose|handed: Seq<ChunkRecord>, outs: Seq<Vec<LabelledPiece>>|
        #![trigger handed_in_order(b.chunks@, handed), timeline_spec(handed, outs, label_offset)]
        handed_in_order(b.chunks@, handed) && outs.len() == handed.len() && (forall|j: int|
            0 <= j < outs.len() ==> piece_views((#[trigger] outs[j])@) == unified_split(
                handed[j],
                b.mic_offset_ms,
                b.sys_offset_ms,
                mic,
                sys,
                l2.mic,
                l2.sys,
            )) && rb == timeline_spec(handed, outs, label_offset);
    assert forall|j: int| 0 <= j < h1.len() implies alike(#[trigger] h1[j], h2[j]) by {
        assert(h1[j].same(a.chunks@[crate::transcript::chunk_order(a.chunks@)[j]]));
        assert(h2[j].same(b.chunks@[crate::transcript::chunk_order(b.chunks@)[j]]));
    }
    assert forall|j: int| 0 <= j < o1.len() implies piece_views((#[trigger] o1[j])@) == piece_views(o2[j]@) by {
        assert(alike(h1[j], h2[j]));
        lemma_unified_split_alike(
            h1[j],
            h2[j],
            a.mic_offset_ms,
            a.sys_offset_ms,
            mic,
            sys,
            l1.mic,
            l1.sys,
            l2.mic,
            l2.sys,
        );
    }
    lemma_entry_bases_alike(h1, h2, o1, o2);
    assert(ra =~= rb);
}

// ---------------------------------------------------------------------------
// The unify pass run again
// ---------------------------------------------------------------------------

/// `s2` are the sessions `s1` again, each with the spans of the timeline the
/// pass wrote for it (`out`) as its old spans.
pub open spec fn rerun_of(
    s1: Seq<UnifySession>,
    s2: Seq<UnifySession>,
    out: Seq<(String, Vec<TimelineRecord>)>,
) -> bool {
    &&& s2.len() == s1.len()
    &&& out.len() == s1.len()
    &&& forall|i: int|
        0 <= i < s1.len() ==> {
            &&& (#[trigger] s2[i]).chunks@ == s1[i].chunks@
            &&& s2[i].session_id@ == s1[i].session_id@
            &&& s2[i].mode == s1[i].mode
            &&& s2[i].mic_offset_ms == s1[i].mic_offset_ms
            &&& s2[i].sys_offset_ms == s1[i].sys_offset_ms
            &&& s2[i].old_spans@.len() == out[i].1@.len()
            &&& forall|j: int|
                0 <= j < out[i].1@.len() ==> span_matches(s2[i].old_spans@[j], #[trigger] record_view(out[i].1@[j]))
        }
}

/// Within each written timeline no two records on one stream overlap.
pub open spec fn timelines_disjoint(out: Seq<(String, Vec<TimelineRecord>)>) -> bool {
    forall|i: int| 0 <= i < out.len() ==> row_disjoint(record_views((#[trigger] out[i]).1@))
}

proof fn lemma_unified_events_same(s1: Seq<UnifySession>, s2: Seq<UnifySession>, mic: Seq<Segment>, sys: Seq<Segment>)
    requires
        s1.len() == s2.len(),
        forall|i: int|
            0 <= i < s1.len() ==> (#[trigger] s2[i]).chunks@ == s1[i].chunks@ && s2[i].mic_offset_ms
                == s1[i].mic_offset_ms && s2[i].sys_offset_ms == s1[i].sys_offset_ms,
    ensures
        unified_events(s1, mic, sys) == unified_events(s2, mic, sys),
    decreases s1.len(),
{
    if s1.len() > 0 {
        let d1 = s1.drop_last();
        let d2 = s2.drop_last();
        assert forall|i: int| 0 <= i < d1.len() implies (#[trigger] d2[i]).chunks@ == d1[i].chunks@
            && d2[i].mic_offset_ms == d1[i].mic_offset_ms && d2[i].sys_offset_ms == d1[i].sys_offset_ms by {
            assert(d1[i] == s1[i] && d2[i] == s2[i]);
        }
        lemma_unified_events_same(d1, d2, mic, sys);
        assert(s2[s1.len() - 1].chunks@ == s1[s1.len() - 1].chunks@);
    }
}

proof fn lemma_rerun_labels(
    sessions: Seq<UnifySession>,
    sessions2: Seq<UnifySession>,
    out: Seq<(String, Vec<TimelineRecord>)>,
    mic: Seq<Segment>,
    sys: Seq<Segment>,
    labels: HybridLabels,
    labels2: HybridLabels,
)
    requires
        rerun_of(sessions, sessions2, out),
        unify_labels_ok(sessions, mic, sys, labels),
        unify_labels_ok(sessions2, mic, sys, labels2),
    ensures
        labels.mic.pairs() == labels2.mic.pairs(),
        labels.sys.pairs() == labels2.sys.pairs(),
{
    lemma_unified_events_same(sessions, sessions2, mic, sys);
    assert(unified_numbering(sessions, mic, sys) == unified_numbering(sessions2, mic, sys));
    assert(allow_you(sessions) == allow_you(sessions2)) by {
        if allow_you(sessions) {
            let i = choose|i: int| 0 <= i < sessions.len() && (#[trigger] sessions[i]).mode != SessionMode::SysOnly;
            assert(sessions2[i].mode == sessions[i].mode);
            assert forall|j: int| 0 <= j < sessions2.len() && (#[trigger] sessions2[j]).mode != SessionMode::SysOnly
                implies sessions2[j].mode == SessionMode::Hybrid by {
                assert(sessions2[j].mode == sessions[j].mode);
            }
        }
        if allow_you(sessions2) {
            let i = choose|i: int| 0 <= i < sessions2.len() && (#[trigger] sessions2[i]).mode != SessionMode::SysOnly;
            assert(sessions2[i].mode == sessions[i].mode);
            assert forall|j: int| 0 <= j < sessions.len() && (#[trigger] sessions[j]).mode != SessionMode::SysOnly
                implies sessions[j].mode == SessionMode::Hybrid by {
                assert(sessions2[j].mode == sessions[j].mode);
            }
        }
    }
}

proof fn lemma_rerun_records(
    sessions: Seq<UnifySession>,
    sessions2: Seq<UnifySession>,
    out: Seq<(String, Vec<TimelineRecord>)>,
    mic: Seq<Segment>,
    sys: Seq<Segment>,
    label_offset: u32,
    labels: HybridLabels,
    labels2: HybridLabels,
    pre: Seq<Seq<RecordView>>,
    pre2: Seq<Seq<RecordView>>,
)
    requires
        rerun_of(sessions, sessions2, out),
        labels.mic.pairs() == labels2.mic.pairs(),
        labels.sys.pairs() == labels2.sys.pairs(),
        pre.len() == sessions.len(),
        pre2.len() == sessions2.len(),
        forall|i: int|
            0 <= i < pre.len() ==> session_records_ok(#[trigger] sessions[i], mic, sys, labels, label_offset, pre[i]),
        forall|i: int|
            0 <= i < pre2.len() ==> session_records_ok(
                #[trigger] sessions2[i],
                mic,
                sys,
                labels2,
                label_offset,
                pre2[i],
            ),
    ensures
        pre2 == pre,
{
    assert forall|i: int| 0 <= i < pre.len() implies #[trigger] pre2[i] == pre[i] by {
        assert(sessions2[i].chunks@ == sessions[i].chunks@);
        assert(session_records_ok(sessions[i], mic, sys, labels, label_offset, pre[i]));
        assert(session_records_ok(sessions2[i], mic, sys, labels2, label_offset, pre2[i]));
        lemma_records_determined(sessions[i], sessions2[i], mic, sys, labels, labels2, label_offset, pre[i], pre2[i]);
    }
    assert(pre2 =~= pre);
}

proof fn lemma_rerun_old_spans(
    sessions: Seq<UnifySession>,
    sessions2: Seq<UnifySession>,
    tl: Seq<(String, Vec<TimelineRecord>)>,
    pre: Seq<Seq<RecordView>>,
    rm: Seq<(Seq<char>, Seq<char>)>,
    olds2: Seq<Vec<LabelSpan>>,
)
    requires
        rerun_of(sessions, sessions2, tl),
        timelines_disjoint(tl),
        pre.len() == sessions.len(),
        forall|i: int|
            0 <= i < tl.len() ==> record_views((#[trigger] tl[i]).1@) == pre[i].map_values(
                |r: RecordView| carried(r, rm),
            ),
        olds2.len() == sessions2.len(),
        forall|i: int| 0 <= i < olds2.len() ==> (#[trigger] olds2[i])@ == sessions2[i].old_spans@,
    ensures
        carried_spans(olds2, pre, rm),
        forall|i: int| 0 <= i < pre.len() ==> row_disjoint(#[trigger] pre[i]),
{
    assert forall|i: int| 0 <= i < pre.len() implies spans_on((#[trigger] olds2[i])@, pre[i]) && forall|j: int|
        0 <= j < pre[i].len() ==> (#[trigger] olds2[i]@[j]).label@ == carried_label(pre[i][j].2, rm) by {
        assert(olds2[i]@ == sessions2[i].old_spans@);
        let rv = record_views(tl[i].1@);
        assert(rv == pre[i].map_values(|r: RecordView| carried(r, rm)));
        assert forall|j: int| 0 <= j < pre[i].len() implies span_on(#[trigger] olds2[i]@[j], pre[i][j])
            && olds2[i]@[j].label@ == carried_label(pre[i][j].2, rm) by {
            assert(rv[j] == record_view(tl[i].1@[j]));
            assert(rv[j] == carried(pre[i][j], rm));
            assert(span_matches(sessions2[i].old_spans@[j], record_view(tl[i].1@[j])));
        }
    }
    assert forall|i: int| 0 <= i < pre.len() implies row_disjoint(#[trigger] pre[i]) by {
        let rv = record_views(tl[i].1@);
        assert(rv == pre[i].map_values(|r: RecordView| carried(r, rm)));
        assert(row_disjoint(rv));
        assert forall|a: int, b: int|
            0 <= a < pre[i].len() && 0 <= b < pre[i].len() && a != b implies (#[trigger] pre[i][a]).5 != (
            #[trigger] pre[i][b]).5 || overlap_ms(pre[i][a].0, pre[i][a].1, pre[i][b].0, pre[i][b].1) == 0 by {
            assert(rv[a] == carried(pre[i][a], rm) && rv[b] == carried(pre[i][b], rm));
        }
    }
}

proof fn lemma_rerun_timelines(
    tl: Seq<(String, Vec<TimelineRecord>)>,
    tl2: Seq<(String, Vec<TimelineRecord>)>,
    sessions: Seq<UnifySession>,
    sessions2: Seq<UnifySession>,
    pre: Seq<Seq<RecordView>>,
    rm: Seq<(Seq<char>, Seq<char>)>,
    rm2: Seq<(Seq<char>, Seq<char>)>,
)
    requires
        rerun_of(sessions, sessions2, tl),
        timelines_ok(tl, sessions, pre, rm),
        timelines_ok(tl2, sessions2, pre, rm2),
        forall|k: Seq<char>| #[trigger] carried_label(k, rm2) == carried_label(k, rm),
    ensures
        tl2.len() == tl.len(),
        forall|i: int|
            0 <= i < tl.len() ==> (#[trigger] tl2[i]).0@ == tl[i].0@ && record_views(tl2[i].1@) == record_views(
                tl[i].1@,
            ),
{
    assert forall|i: int| 0 <= i < tl.len() implies (#[trigger] tl2[i]).0@ == tl[i].0@ && record_views(tl2[i].1@)
        == record_views(tl[i].1@) by {
        assert(sessions2[i].session_id@ == sessions[i].session_id@);
        assert forall|j: int| 0 <= j < pre[i].len() implies carried(pre[i][j], rm2) == carried(pre[i][j], rm) by {
            assert(carried_label(pre[i][j].2, rm2) == carried_label(pre[i][j].2, rm));
        }
        assert(pre[i].map_values(|r: RecordView| carried(r, rm2)) =~= pre[i].map_values(
            |r: RecordView| carried(r, rm),
        ));
    }
}

/// Running the unify pass again over its own output changes nothing: with
/// the same audio and chunks, and each session's old spans taken from the
/// timeline the first run wrote, the second run writes the same timelines
/// (record for record) and raises no collision notice. This holds when no
/// two records of a written timeline overlap on one stream; the second run
/// writes nothing (`None`) only when its shared speech times overflow a
/// `u64`.
pub proof fn law_unify_rerun_is_identical(
    sessions: Seq<UnifySession>,
    sessions2: Seq<UnifySession>,
    mic: Seq<Segment>,
    sys: Seq<Segment>,
    label_offset: u32,
    labels: HybridLabels,
    pre: Seq<Seq<RecordView>>,
    news: Seq<Vec<LabelSpan>>,
    olds: Seq<Vec<LabelSpan>>,
    rm: Seq<(Seq<char>, Seq<char>)>,
    out: UnifyOutcome,
    labels2: HybridLabels,
    pre2: Seq<Seq<RecordView>>,
    news2: Seq<Vec<LabelSpan>>,
    olds2: Seq<Vec<LabelSpan>>,
    rm2: Seq<(Seq<char>, Seq<char>)>,
    r2: Option<UnifyOutcome>,
)
    requires
        unify_result(sessions, mic, sys, label_offset, labels, pre, news, olds, rm, Some(out)),
        timelines_disjoint(out.timelines@),
        rerun_of(sessions, sessions2, out.timelines@),
        unify_result(sessions2, mic, sys, label_offset, labels2, pre2, news2, olds2, rm2, r2),
    ensures
        r2 matches Some(out2) ==> {
            &&& out2.timelines@.len() == out.timelines@.len()
            &&& forall|i: int|
                0 <= i < out.timelines@.len() ==> (#[trigger] out2.timelines@[i]).0@ == out.timelines@[i].0@
                    && record_views(out2.timelines@[i].1@) == record_views(out.timelines@[i].1@)
            &&& out2.notices@.len() == 0
        },
        r2 is None ==> !credits_fit(news2, olds2),
{
    let tl = out.timelines@;
    lemma_rerun_labels(sessions, sessions2, tl, mic, sys, labels, labels2);
    lemma_rerun_records(sessions, sessions2, tl, mic, sys, label_offset, labels, labels2, pre, pre2);
    if let Some(out2) = r2 {
        lemma_rerun_old_spans(sessions, sessions2, tl, pre, rm, olds2);
        lemma_carry_over_rerun(
            pre,
            news,
            olds,
            rm,
            seqs_of_strings(out.notices@),
            news2,
            olds2,
            rm2,
            seqs_of_strings(out2.notices@),
        );
        assert(seqs_of_strings(out2.notices@).len() == 0);
        lemma_rerun_timelines(tl, out2.timelines@, sessions, sessions2, pre, rm, rm2);
    }
}

} // verus!
