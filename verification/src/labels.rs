//! Speaker attribution: mapping a moment in a stream to the diarizer's
//! speaker id, numbering the ids a recording actually reaches, and splitting
//! a chunk into per-speaker pieces.
use vstd::prelude::*;
use crate::types::{ChunkRecord, ChunkSource, ChunkWord, LabelledPiece, Segment, copy_words};
use crate::text::{chars_of, chars_eq, extend_chars, string_of};
use crate::speakers::{dec, render_u64, speaker_prefix};
use crate::order::{stable_order, stable_order_exec};

verus! {

// ---------------------------------------------------------------------------
// Time arithmetic
// ---------------------------------------------------------------------------

/// `u64::saturating_add`.
pub open spec fn sat_add(a: u64, b: u64) -> u64 {
    if a + b > u64::MAX {
        u64::MAX
    } else {
        (a + b) as u64
    }
}

/// `u64::saturating_sub`.
pub open spec fn sat_sub(a: u64, b: u64) -> u64 {
    if a >= b {
        (a - b) as u64
    } else {
        0
    }
}

/// A word's chunk-relative midpoint.
pub open spec fn word_mid(w: ChunkWord) -> u64 {
    sat_add(w.start_ms, sat_sub(w.end_ms, w.start_ms) / 2)
}

/// A word's stream-absolute midpoint inside a chunk starting at `chunk_start`.
pub open spec fn word_abs(chunk_start: u64, w: ChunkWord) -> u64 {
    sat_add(chunk_start, word_mid(w))
}

pub fn word_abs_exec(chunk_start: u64, w: &ChunkWord) -> (t: u64)
    ensures
        t == word_abs(chunk_start, *w),
{
    let half = w.end_ms.saturating_sub(w.start_ms) / 2;
    let mid = w.start_ms.saturating_add(half);
    chunk_start.saturating_add(mid)
}

// ---------------------------------------------------------------------------
// Assigning a moment to a speaker
// ---------------------------------------------------------------------------

/// `t` falls inside `s`.
pub open spec fn in_segment(s: Segment, t: u64) -> bool {
    s.start_ms <= t && t < s.end_ms
}

/// Distance from `t` to the nearer edge of `s` (0 inside it).
pub open spec fn edge_distance(s: Segment, t: u64) -> u64 {
    if t < s.start_ms {
        (s.start_ms - t) as u64
    } else {
        sat_sub(t, s.end_ms)
    }
}

/// Index of the first segment containing `t`, or -1.
pub open spec fn first_containing(segs: Seq<Segment>, t: u64) -> int
    decreases segs.len(),
{
    if segs.len() == 0 {
        -1
    } else {
        let a = first_containing(segs.drop_last(), t);
        if a >= 0 {
            a
        } else if in_segment(segs.last(), t) {
            segs.len() - 1
        } else {
            -1
        }
    }
}

/// Index of the first segment at the least edge distance from `t`, or -1.
pub open spec fn closest(segs: Seq<Segment>, t: u64) -> int
    decreases segs.len(),
{
    if segs.len() == 0 {
        -1
    } else {
        let a = closest(segs.drop_last(), t);
        if a < 0 || edge_distance(segs.last(), t) < edge_distance(segs[a], t) {
            segs.len() - 1
        } else {
            a
        }
    }
}

/// The segment `t` is attributed to: the first one containing it, else the
/// first closest one; -1 only when there are no segments.
pub open spec fn assigned(segs: Seq<Segment>, t: u64) -> int {
    let f = first_containing(segs, t);
    if f >= 0 {
        f
    } else {
        closest(segs, t)
    }
}

pub proof fn lemma_first_containing(segs: Seq<Segment>, t: u64)
    ensures
        -1 <= first_containing(segs, t) < segs.len(),
        first_containing(segs, t) >= 0 ==> in_segment(segs[first_containing(segs, t)], t),
        forall|j: int|
            0 <= j < segs.len() && (first_containing(segs, t) < 0 || j < first_containing(segs, t))
                ==> !in_segment(#[trigger] segs[j], t),
    decreases segs.len(),
{
    if segs.len() > 0 {
        lemma_first_containing(segs.drop_last(), t);
        assert forall|j: int|
            0 <= j < segs.len() && (first_containing(segs, t) < 0 || j < first_containing(
                segs,
                t,
            )) implies !in_segment(#[trigger] segs[j], t) by {
            if j < segs.len() - 1 {
                assert(segs[j] == segs.drop_last()[j]);
            }
        }
    }
}

pub proof fn lemma_assigned_bounds(segs: Seq<Segment>, t: u64)
    ensures
        segs.len() == 0 ==> assigned(segs, t) == -1,
        segs.len() > 0 ==> 0 <= assigned(segs, t) < segs.len(),
    decreases segs.len(),
{
    lemma_first_containing(segs, t);
    lemma_closest_bounds(segs, t);
}

proof fn lemma_closest_bounds(segs: Seq<Segment>, t: u64)
    ensures
        segs.len() == 0 ==> closest(segs, t) == -1,
        segs.len() > 0 ==> 0 <= closest(segs, t) < segs.len(),
    decreases segs.len(),
{
    if segs.len() > 0 {
        lemma_closest_bounds(segs.drop_last(), t);
    }
}

fn edge_distance_exec(s: &Segment, t: u64) -> (d: u64)
    ensures
        d == edge_distance(*s, t),
{
    if t < s.start_ms {
        s.start_ms - t
    } else {
        t.saturating_sub(s.end_ms)
    }
}

/// Index of the segment `t` is attributed to.
pub fn assign_index(t: u64, segments: &[Segment]) -> (r: Option<usize>)
    ensures
        r is None <==> segments.len() == 0,
        r matches Some(i) ==> i == assigned(segments@, t) && i < segments.len(),
{
    proof {
        lemma_first_containing(segments@, t);
    }
    let mut i: usize = 0;
    while i < segments.len()
        invariant
            i <= segments.len(),
            forall|j: int| 0 <= j < i ==> !in_segment(#[trigger] segments@[j], t),
        decreases segments.len() - i,
    {
        if t >= segments[i].start_ms && t < segments[i].end_ms {
            proof {
                lemma_first_containing(segments@, t);
                let f = first_containing(segments@, t);
                assert(in_segment(segments@[i as int], t));
                if f < 0 || f > i {
                    assert(!in_segment(segments@[i as int], t));
                }
                if 0 <= f < i {
                    assert(!in_segment(segments@[f], t));
                }
            }
            return Some(i);
        }
        i += 1;
    }
    assert(first_containing(segments@, t) < 0) by {
        let f = first_containing(segments@, t);
        if f >= 0 {
            assert(!in_segment(segments@[f], t));
        }
    }
    if segments.len() == 0 {
        return None;
    }
    let mut best: usize = 0;
    let mut k: usize = 1;
    assert(segments@.take(1).drop_last() =~= Seq::<Segment>::empty());
    assert(closest(segments@.take(1).drop_last(), t) == -1);
    assert(closest(segments@.take(1), t) == 0);
    while k < segments.len()
        invariant
            1 <= k <= segments.len(),
            best < k,
            best == closest(segments@.take(k as int), t),
        decreases segments.len() - k,
    {
        assert(segments@.take(k + 1).drop_last() =~= segments@.take(k as int));
        assert(segments@.take(k as int)[best as int] == segments@[best as int]);
        if edge_distance_exec(&segments[k], t) < edge_distance_exec(&segments[best], t) {
            best = k;
        }
        k += 1;
    }
    assert(segments@.take(segments.len() as int) =~= segments@);
    Some(best)
}

/// The speaker id the diarizer gives the moment `t`: the segment containing
/// it, else the closest segment by edge distance; `None` only when there are
/// no segments.
pub fn assign_speaker(t: u64, segments: &[Segment]) -> (r: Option<&str>)
    ensures
        segments.len() == 0 ==> r is None,
        segments.len() > 0 ==> (r matches Some(s) && s@ == segments@[assigned(
            segments@,
            t,
        )].speaker_id@),
{
    match assign_index(t, segments) {
        Some(i) => Some(segments[i].speaker_id.as_str()),
        None => None,
    }
}

// ---------------------------------------------------------------------------
// Which ids a stream reaches
// ---------------------------------------------------------------------------

/// The moments a chunk is looked up at: its start when it has no word
/// timings, else every word's absolute midpoint.
pub open spec fn lookup_times(c: ChunkRecord) -> Seq<u64> {
    if c.words@.len() == 0 {
        seq![c.start_ms]
    } else {
        c.words@.map_values(|w: ChunkWord| word_abs(c.start_ms, w))
    }
}

/// The speaker ids assigned to the moments `ts` (none without segments).
pub open spec fn ids_at(segs: Seq<Segment>, ts: Seq<u64>) -> Seq<Seq<char>> {
    if segs.len() == 0 {
        seq![]
    } else {
        ts.map_values(|t: u64| segs[assigned(segs, t)].speaker_id@)
    }
}

/// Every speaker id the chunks of `source` reach, in chunk and word order.
pub open spec fn reached(chunks: Seq<ChunkRecord>, segs: Seq<Segment>, source: ChunkSource) -> Seq<
    Seq<char>,
>
    decreases chunks.len(),
{
    if chunks.len() == 0 {
        seq![]
    } else {
        reached(chunks.drop_last(), segs, source) + (if chunks.last().source == source {
            ids_at(segs, lookup_times(chunks.last()))
        } else {
            seq![]
        })
    }
}

/// `ids` with repeats removed, keeping first occurrences in order.
pub open spec fn first_occ<T>(ids: Seq<T>) -> Seq<T>
    decreases ids.len(),
{
    if ids.len() == 0 {
        seq![]
    } else {
        let p = first_occ(ids.drop_last());
        if p.contains(ids.last()) {
            p
        } else {
            p.push(ids.last())
        }
    }
}

pub proof fn lemma_first_occ_no_dups<T>(ids: Seq<T>)
    ensures
        first_occ(ids).no_duplicates(),
        forall|x: T| first_occ(ids).contains(x) <==> ids.contains(x),
    decreases ids.len(),
{
    if ids.len() > 0 {
        let d = ids.drop_last();
        let l = ids.last();
        lemma_first_occ_no_dups(d);
        let p = first_occ(d);
        assert forall|x: T| ids.contains(x) <==> (d.contains(x) || x == l) by {
            if ids.contains(x) {
                let j = choose|j: int| 0 <= j < ids.len() && ids[j] == x;
                if j < ids.len() - 1 {
                    assert(d[j] == x);
                }
            }
            if d.contains(x) {
                let j = choose|j: int| 0 <= j < d.len() && d[j] == x;
                assert(ids[j] == x);
            }
            if x == l {
                assert(ids[ids.len() - 1] == x);
            }
        }
        if !p.contains(l) {
            let q = p.push(l);
            assert forall|x: T| q.contains(x) <==> (p.contains(x) || x == l) by {
                if q.contains(x) {
                    let j = choose|j: int| 0 <= j < q.len() && q[j] == x;
                    if j < p.len() {
                        assert(p[j] == x);
                    }
                }
                if p.contains(x) {
                    let j = choose|j: int| 0 <= j < p.len() && p[j] == x;
                    assert(q[j] == x);
                }
                if x == l {
                    assert(q[p.len() as int] == x);
                }
            }
            assert forall|i: int, j: int| 0 <= i < q.len() && 0 <= j < q.len() && i != j implies q[i]
                != q[j] by {
                if i < p.len() && j < p.len() {
                } else if i < p.len() {
                    assert(p.contains(q[i]));
                } else if j < p.len() {
                    assert(p.contains(q[j]));
                }
            }
        }
    }
}

/// Index of the first element of `s` equal to `x`, or -1.
pub open spec fn index_in<T>(s: Seq<T>, x: T) -> int
    decreases s.len(),
{
    if s.len() == 0 {
        -1
    } else if s[0] == x {
        0
    } else {
        let r = index_in(s.drop_first(), x);
        if r < 0 {
            -1
        } else {
            r + 1
        }
    }
}

pub proof fn lemma_index_in<T>(s: Seq<T>, x: T, k: int)
    requires
        0 <= k <= s.len(),
        forall|j: int| 0 <= j < k ==> s[j] != x,
        k < s.len() ==> s[k] == x,
    ensures
        index_in(s, x) == (if k == s.len() { -1 } else { k }),
    decreases k,
{
    if k > 0 {
        lemma_index_in(s.drop_first(), x, k - 1);
    }
}

/// The first-encounter numbering of speaker ids for one stream: id `ids[i]`
/// is shown as `Speaker i+1`.
pub struct DisplayMap {
    pub ids: Vec<String>,
}

impl DisplayMap {
    /// The ids, in numbering order.
    pub open spec fn keys(&self) -> Seq<Seq<char>> {
        self.ids@.map_values(|s: String| s@)
    }

    /// The number `sid` is shown with, if any.
    pub open spec fn number_of(&self, sid: Seq<char>) -> Option<nat> {
        let i = index_in(self.keys(), sid);
        if i >= 0 {
            Some((i + 1) as nat)
        } else {
            None
        }
    }

    /// The number `sid` is shown with, if it was reached.
    pub fn get(&self, sid: &str) -> (r: Option<u32>)
        requires
            self.ids.len() < u32::MAX,
        ensures
            r is None <==> self.number_of(sid@) is None,
            r matches Some(n) ==> self.number_of(sid@) == Some(n as nat),
    {
        let key = chars_of(sid);
        let mut i: usize = 0;
        while i < self.ids.len()
            invariant
                i <= self.ids.len(),
                self.ids.len() < u32::MAX,
                key@ == sid@,
                forall|j: int| 0 <= j < i ==> self.keys()[j] != sid@,
            decreases self.ids.len() - i,
        {
            let k = chars_of(self.ids[i].as_str());
            if chars_eq(&k, &key) {
                proof {
                    lemma_index_in(self.keys(), sid@, i as int);
                }
                return Some((i + 1) as u32);
            }
            i += 1;
        }
        proof {
            lemma_index_in(self.keys(), sid@, i as int);
        }
        None
    }

    /// How many ids are numbered.
    pub fn len(&self) -> (n: usize)
        ensures
            n == self.keys().len(),
    {
        self.ids.len()
    }
}


pub proof fn lemma_index_in_contains<T>(s: Seq<T>, x: T)
    ensures
        (index_in(s, x) >= 0) == s.contains(x),
        index_in(s, x) < s.len(),
        index_in(s, x) >= 0 ==> s[index_in(s, x)] == x,
    decreases s.len(),
{
    if s.len() > 0 && s[0] != x {
        lemma_index_in_contains(s.drop_first(), x);
        if s.contains(x) {
            let j = choose|j: int| 0 <= j < s.len() && s[j] == x;
            assert(s.drop_first()[j - 1] == x);
        }
        if s.drop_first().contains(x) {
            let j = choose|j: int| 0 <= j < s.drop_first().len() && s.drop_first()[j] == x;
            assert(s[j + 1] == x);
        }
    } else if s.len() > 0 {
        assert(s[0] == x);
    }
}

/// Whether `ids` already holds `sid`.
fn holds_id(ids: &Vec<String>, sid: &String) -> (b: bool)
    ensures
        b == ids@.map_values(|s: String| s@).contains(sid@),
{
    let key = chars_of(sid.as_str());
    let ghost ks = ids@.map_values(|s: String| s@);
    let mut i: usize = 0;
    while i < ids.len()
        invariant
            i <= ids.len(),
            key@ == sid@,
            ks == ids@.map_values(|s: String| s@),
            forall|j: int| 0 <= j < i ==> ks[j] != sid@,
        decreases ids.len() - i,
    {
        let k = chars_of(ids[i].as_str());
        if chars_eq(&k, &key) {
            assert(ks[i as int] == sid@);
            return true;
        }
        i += 1;
    }
    assert forall|j: int| 0 <= j < ks.len() implies ks[j] != sid@ by {}
    false
}

/// The views of a list of strings.
pub open spec fn seqs_of_strings(v: Seq<String>) -> Seq<Seq<char>> {
    v.map_values(|s: String| s@)
}

/// Register `sid` at the end of `ids` unless it is already there.
fn record_id(ids: &mut Vec<String>, sid: &String)
    ensures
        seqs_of_strings(final(ids)@) == (if seqs_of_strings(old(ids)@).contains(sid@) {
            seqs_of_strings(old(ids)@)
        } else {
            seqs_of_strings(old(ids)@).push(sid@)
        }),
{
    let ghost ks = seqs_of_strings(ids@);
    if !holds_id(ids, sid) {
        ids.push(sid.clone());
        assert(seqs_of_strings(ids@) =~= ks.push(sid@));
    }
}

/// Number the speaker ids the chunks of one `source` reach, in first-encounter
/// order: each chunk is looked up at its start when it has no word timings,
/// else at every word's midpoint, so a speaker who only appears mid-chunk
/// still gets a number.
pub fn build_display_map(
    chunks: &[ChunkRecord],
    segments: &[Segment],
    source: ChunkSource,
) -> (m: DisplayMap)
    ensures
        m.keys() == first_occ(reached(chunks@, segments@, source)),
{
    let mut ids: Vec<String> = Vec::new();
    let mut ci: usize = 0;
    while ci < chunks.len()
        invariant
            ci <= chunks.len(),
            seqs_of_strings(ids@) == first_occ(reached(chunks@.take(ci as int), segments@, source)),
        decreases chunks.len() - ci,
    {
        let chunk = &chunks[ci];
        let ghost before = reached(chunks@.take(ci as int), segments@, source);
        assert(chunks@.take(ci + 1).drop_last() =~= chunks@.take(ci as int));
        assert(chunks@.take(ci + 1).last() == *chunk);
        if chunk.source == source && segments.len() > 0 {
            let ghost times = lookup_times(*chunk);
            if chunk.words.len() == 0 {
                let i = assign_index(chunk.start_ms, segments).unwrap();
                record_id(&mut ids, &segments[i].speaker_id);
                assert(ids_at(segments@, times) =~= seq![segments@[i as int].speaker_id@]);
                assert(before.push(segments@[i as int].speaker_id@).drop_last() =~= before);
                assert(before + ids_at(segments@, times) =~= before.push(
                    segments@[i as int].speaker_id@,
                ));
            } else {
                let mut wi: usize = 0;
                assert(ids_at(segments@, times).take(0) =~= Seq::<Seq<char>>::empty());
                assert(before + ids_at(segments@, times).take(0) =~= before);
                while wi < chunk.words.len()
                    invariant
                        wi <= chunk.words.len(),
                        chunk.words.len() > 0,
                        segments.len() > 0,
                        times == lookup_times(*chunk),
                        times.len() == chunk.words.len(),
                        seqs_of_strings(ids@) == first_occ(
                            before + ids_at(segments@, times).take(wi as int),
                        ),
                    decreases chunk.words.len() - wi,
                {
                    let t = word_abs_exec(chunk.start_ms, &chunk.words[wi]);
                    let i = assign_index(t, segments).unwrap();
                    record_id(&mut ids, &segments[i].speaker_id);
                    let ghost x = segments@[i as int].speaker_id@;
                    assert(ids_at(segments@, times)[wi as int] == x);
                    assert(before + ids_at(segments@, times).take(wi + 1) =~= (before + ids_at(
                        segments@,
                        times,
                    ).take(wi as int)).push(x));
                    assert((before + ids_at(segments@, times).take(wi as int)).push(x).drop_last()
                        =~= before + ids_at(segments@, times).take(wi as int));
                    wi += 1;
                }
                assert(ids_at(segments@, times).take(wi as int) =~= ids_at(segments@, times));
            }
        } else {
            assert(before + (if chunk.source == source {
                ids_at(segments@, lookup_times(*chunk))
            } else {
                seq![]
            }) =~= before);
        }
        ci += 1;
    }
    assert(chunks@.take(chunks.len() as int) =~= chunks@);
    DisplayMap { ids }
}


// ---------------------------------------------------------------------------
// Display labels and per-speaker pieces
// ---------------------------------------------------------------------------

/// A speaker id → display label map.
pub struct LabelMap {
    pub entries: Vec<(String, String)>,
}

/// The label of the first entry keyed `k`, if any.
pub open spec fn lookup_pairs(ps: Seq<(Seq<char>, Seq<char>)>, k: Seq<char>) -> Option<Seq<char>>
    decreases ps.len(),
{
    if ps.len() == 0 {
        None
    } else if ps[0].0 == k {
        Some(ps[0].1)
    } else {
        lookup_pairs(ps.drop_first(), k)
    }
}

impl LabelMap {
    /// The entries as (id, label) character sequences.
    pub open spec fn pairs(&self) -> Seq<(Seq<char>, Seq<char>)> {
        self.entries@.map_values(|e: (String, String)| (e.0@, e.1@))
    }

    /// The label `k` maps to.
    pub open spec fn lookup(&self, k: Seq<char>) -> Option<Seq<char>> {
        lookup_pairs(self.pairs(), k)
    }

    /// The label `sid` maps to.
    pub fn get(&self, sid: &str) -> (r: Option<&String>)
        ensures
            r is None <==> self.lookup(sid@) is None,
            r matches Some(l) ==> self.lookup(sid@) == Some(l@),
    {
        let key = chars_of(sid);
        let mut i: usize = 0;
        assert(self.pairs().skip(0) =~= self.pairs());
        while i < self.entries.len()
            invariant
                i <= self.entries.len(),
                key@ == sid@,
                self.lookup(sid@) == lookup_pairs(self.pairs().skip(i as int), sid@),
            decreases self.entries.len() - i,
        {
            let ghost rest = self.pairs().skip(i as int);
            assert(rest[0] == (self.entries@[i as int].0@, self.entries@[i as int].1@));
            assert(rest.drop_first() =~= self.pairs().skip(i + 1));
            let k = chars_of(self.entries[i].0.as_str());
            if chars_eq(&k, &key) {
                return Some(&self.entries[i].1);
            }
            i += 1;
        }
        assert(self.pairs().skip(i as int) =~= Seq::<(Seq<char>, Seq<char>)>::empty());
        None
    }

    /// Number of entries.
    pub fn len(&self) -> (n: usize)
        ensures
            n == self.entries@.len(),
    {
        self.entries.len()
    }

    /// Whether the map has no entries.
    pub fn is_empty(&self) -> (b: bool)
        ensures
            b == (self.entries@.len() == 0),
    {
        self.entries.len() == 0
    }

    /// The labels, in entry order.
    pub fn values(&self) -> (r: Vec<String>)
        ensures
            r.len() == self.entries@.len(),
            forall|j: int| 0 <= j < r.len() ==> (#[trigger] r@[j])@ == self.pairs()[j].1,
    {
        let mut r: Vec<String> = Vec::new();
        let mut i: usize = 0;
        while i < self.entries.len()
            invariant
                i <= self.entries.len(),
                r.len() == i,
                forall|j: int| 0 <= j < i ==> (#[trigger] r@[j])@ == self.pairs()[j].1,
            decreases self.entries.len() - i,
        {
            let v = self.entries[i].1.clone();
            assert(v@ == self.pairs()[i as int].1);
            r.push(v);
            i += 1;
        }
        r
    }
}

/// A piece seen as plain values.
pub struct PieceView {
    pub label: Option<Seq<char>>,
    pub text: Seq<char>,
    pub words: Seq<ChunkWord>,
}

/// The characters of an optional string.
pub open spec fn opt_chars(o: Option<String>) -> Option<Seq<char>> {
    match o {
        Some(s) => Some(s@),
        None => None,
    }
}

/// `p` seen as plain values.
pub open spec fn piece_view(p: LabelledPiece) -> PieceView {
    PieceView { label: opt_chars(p.label), text: p.text@, words: p.words@ }
}

/// The views of a list of pieces.
pub open spec fn piece_views(ps: Seq<LabelledPiece>) -> Seq<PieceView> {
    ps.map_values(|p: LabelledPiece| piece_view(p))
}

/// The label the moment `t` gets: its speaker id looked up in `labels`.
pub open spec fn label_at(segs: Seq<Segment>, labels: LabelMap, t: u64) -> Option<Seq<char>> {
    if segs.len() == 0 {
        None
    } else {
        labels.lookup(segs[assigned(segs, t)].speaker_id@)
    }
}

/// Words grouped into runs of equal label: each word joins the last run when
/// its label matches, else opens a new run.
pub open spec fn group_words(ws: Seq<ChunkWord>, labs: Seq<Option<Seq<char>>>) -> Seq<PieceView>
    decreases ws.len(),
{
    if ws.len() == 0 {
        seq![]
    } else {
        let p = group_words(ws.drop_last(), labs.drop_last());
        let w = ws.last();
        let l = labs[ws.len() - 1];
        if p.len() > 0 && p.last().label == l {
            p.drop_last().push(
                PieceView {
                    label: l,
                    text: p.last().text + seq![' '] + w.text@,
                    words: p.last().words.push(w),
                },
            )
        } else {
            p.push(PieceView { label: l, text: w.text@, words: seq![w] })
        }
    }
}

/// The pieces `split_by_labels` cuts chunk `c` into.
pub open spec fn split_spec(c: ChunkRecord, segs: Seq<Segment>, labels: LabelMap) -> Seq<
    PieceView,
> {
    if c.words@.len() == 0 {
        seq![PieceView { label: label_at(segs, labels, c.start_ms), text: c.text@, words: seq![] }]
    } else {
        group_words(
            c.words@,
            c.words@.map_values(|w: ChunkWord| label_at(segs, labels, word_abs(c.start_ms, w))),
        )
    }
}

/// The words of `ps`, piece after piece.
pub open spec fn all_words(ps: Seq<PieceView>) -> Seq<ChunkWord>
    decreases ps.len(),
{
    if ps.len() == 0 {
        seq![]
    } else {
        all_words(ps.drop_last()) + ps.last().words
    }
}

/// The label of each word of `ps`, piece after piece.
pub open spec fn word_labels(ps: Seq<PieceView>) -> Seq<Option<Seq<char>>>
    decreases ps.len(),
{
    if ps.len() == 0 {
        seq![]
    } else {
        word_labels(ps.drop_last()) + Seq::new(ps.last().words.len(), |i: int| ps.last().label)
    }
}

proof fn lemma_group_words_keeps(ws: Seq<ChunkWord>, labs: Seq<Option<Seq<char>>>)
    requires
        labs.len() == ws.len(),
    ensures
        all_words(group_words(ws, labs)) == ws,
        word_labels(group_words(ws, labs)) == labs,
    decreases ws.len(),
{
    if ws.len() > 0 {
        let dw = ws.drop_last();
        let dl = labs.drop_last();
        lemma_group_words_keeps(dw, dl);
        let p = group_words(dw, dl);
        let w = ws.last();
        let l = labs[ws.len() - 1];
        let g = group_words(ws, labs);
        if p.len() > 0 && p.last().label == l {
            let q = PieceView { label: l, text: p.last().text + seq![' '] + w.text@, words: p.last().words.push(w) };
            assert(g == p.drop_last().push(q));
            assert(g.drop_last() =~= p.drop_last());
            assert(all_words(p) == all_words(p.drop_last()) + p.last().words);
            assert(all_words(g) =~= all_words(p) + seq![w]);
            assert(word_labels(p) == word_labels(p.drop_last()) + Seq::new(p.last().words.len(), |i: int| p.last().label));
            assert(word_labels(g) =~= word_labels(p) + seq![l]);
        } else {
            let q = PieceView { label: l, text: w.text@, words: seq![w] };
            assert(g == p.push(q));
            assert(g.drop_last() =~= p);
            assert(all_words(g) =~= all_words(p) + seq![w]);
            assert(word_labels(g) =~= word_labels(p) + seq![l]);
        }
        assert(dw.push(w) =~= ws);
        assert(dl.push(l) =~= labs);
    }
}

/// Splitting a chunk with word timings by labels keeps its words: the
/// pieces' words, in order, are the chunk's words, and each word carries the
/// label looked up at its absolute midpoint.
pub proof fn law_split_keeps_words(c: ChunkRecord, segs: Seq<Segment>, labels: LabelMap)
    requires
        c.words@.len() > 0,
    ensures
        all_words(split_spec(c, segs, labels)) == c.words@,
        word_labels(split_spec(c, segs, labels)) == c.words@.map_values(
            |w: ChunkWord| label_at(segs, labels, word_abs(c.start_ms, w)),
        ),
{
    lemma_group_words_keeps(
        c.words@,
        c.words@.map_values(|w: ChunkWord| label_at(segs, labels, word_abs(c.start_ms, w))),
    );
}

/// A chunk's full text and words as one piece with the given label.
pub fn single_piece(c: &ChunkRecord, label: Option<String>) -> (r: Vec<LabelledPiece>)
    ensures
        r.len() == 1,
        piece_view(r@[0]) == (PieceView {
            label: opt_chars(label),
            text: c.text@,
            words: c.words@,
        }),
{
    let mut r: Vec<LabelledPiece> = Vec::new();
    r.push(LabelledPiece { label, text: c.text.clone(), words: copy_words(&c.words) });
    r
}

fn label_at_exec(segments: &[Segment], labels: &LabelMap, t: u64) -> (r: Option<String>)
    ensures
        opt_chars(r) == label_at(segments@, *labels, t),
{
    match assign_index(t, segments) {
        Some(i) => match labels.get(segments[i].speaker_id.as_str()) {
            Some(l) => Some(l.clone()),
            None => None,
        },
        None => None,
    }
}

pub(crate) fn opt_eq(a: &Option<String>, b: &Option<String>) -> (r: bool)
    ensures
        r == (opt_chars(*a) == opt_chars(*b)),
{
    match (a, b) {
        (Some(x), Some(y)) => {
            let xv = chars_of(x.as_str());
            let yv = chars_of(y.as_str());
            chars_eq(&xv, &yv)
        },
        (None, None) => true,
        _ => false,
    }
}

/// Cut a chunk into per-speaker pieces by looking each word's absolute
/// midpoint up in `segments` and its speaker id in `labels`; consecutive
/// words with the same label form one piece. A chunk without word timings
/// becomes one piece labelled by its start.
pub fn split_by_labels(c: &ChunkRecord, segments: &[Segment], labels: &LabelMap) -> (r: Vec<
    LabelledPiece,
>)
    ensures
        piece_views(r@) == split_spec(*c, segments@, *labels),
{
    if c.words.len() == 0 {
        let l = label_at_exec(segments, labels, c.start_ms);
        let r = single_piece(c, l);
        assert(c.words@ =~= Seq::<ChunkWord>::empty());
        assert(piece_views(r@) =~= split_spec(*c, segments@, *labels));
        return r;
    }
    let ghost labs = c.words@.map_values(
        |w: ChunkWord| label_at(segments@, *labels, word_abs(c.start_ms, w)),
    );
    let mut pieces: Vec<LabelledPiece> = Vec::new();
    let mut i: usize = 0;
    while i < c.words.len()
        invariant
            i <= c.words.len(),
            labs == c.words@.map_values(
                |w: ChunkWord| label_at(segments@, *labels, word_abs(c.start_ms, w)),
            ),
            piece_views(pieces@) == group_words(c.words@.take(i as int), labs.take(i as int)),
        decreases c.words.len() - i,
    {
        let w = &c.words[i];
        let t = word_abs_exec(c.start_ms, w);
        let l = label_at_exec(segments, labels, t);
        let ghost before = piece_views(pieces@);
        assert(c.words@.take(i + 1).drop_last() =~= c.words@.take(i as int));
        assert(labs.take(i + 1).drop_last() =~= labs.take(i as int));
        assert(labs.take(i + 1)[i as int] == opt_chars(l));
        let n = pieces.len();
        let joins = n > 0 && opt_eq(&pieces[n - 1].label, &l);
        if joins {
            let mut last = pieces.pop().unwrap();
            assert(piece_view(last) == before.last());
            let ghost old_text = last.text@;
            let ghost old_words = last.words@;
            push_char_string(&mut last.text, ' ');
            append_string(&mut last.text, &w.text);
            last.words.push(w.copy());
            assert(last.text@ =~= old_text + seq![' '] + w.text@);
            pieces.push(last);
            assert(piece_views(pieces@) =~= before.drop_last().push(
                PieceView {
                    label: opt_chars(l),
                    text: old_text + seq![' '] + w.text@,
                    words: old_words.push(*w),
                },
            ));
        } else {
            let mut ws: Vec<ChunkWord> = Vec::new();
            ws.push(w.copy());
            assert(ws@ =~= seq![*w]);
            pieces.push(LabelledPiece { label: l, text: w.text.clone(), words: ws });
            assert(piece_views(pieces@) =~= before.push(
                PieceView { label: opt_chars(l), text: w.text@, words: seq![*w] },
            ));
        }
        i += 1;
    }
    assert(c.words@.take(i as int) =~= c.words@);
    assert(labs.take(i as int) =~= labs);
    pieces
}

fn push_char_string(s: &mut String, c: char)
    ensures
        final(s)@ == old(s)@.push(c),
{
    crate::text::push_char(s, c);
}

fn append_string(s: &mut String, t: &String)
    ensures
        final(s)@ == old(s)@ + t@,
{
    let v = chars_of(t.as_str());
    let mut i: usize = 0;
    while i < v.len()
        invariant
            i <= v.len(),
            v@ == t@,
            s@ == old(s)@ + v@.take(i as int),
        decreases v.len() - i,
    {
        crate::text::push_char(s, v[i]);
        assert(old(s)@ + v@.take(i + 1) =~= (old(s)@ + v@.take(i as int)).push(v@[i as int]));
        i += 1;
    }
    assert(v@.take(i as int) =~= v@);
}

/// The label map a display map stands for: id `k` → `Speaker <number of k>`.
pub open spec fn numbered_pairs(keys: Seq<Seq<char>>) -> Seq<(Seq<char>, Seq<char>)> {
    Seq::new(keys.len(), |i: int| (keys[i], speaker_prefix() + dec((i + 1) as nat)))
}

/// `Speaker <n>` as a `String`.
pub fn speaker_label(n: u64) -> (r: String)
    ensures
        r@ == speaker_prefix() + dec(n as nat),
{
    let mut v: Vec<char> = vec!['S', 'p', 'e', 'a', 'k', 'e', 'r', ' '];
    assert(v@ =~= speaker_prefix());
    let d = render_u64(n);
    extend_chars(&mut v, &d);
    string_of(&v)
}

/// The labels of a display map: each id as `Speaker N`.
pub fn display_labels(m: &DisplayMap) -> (r: LabelMap)
    ensures
        r.pairs() == numbered_pairs(m.keys()),
{
    let mut entries: Vec<(String, String)> = Vec::new();
    let mut i: usize = 0;
    while i < m.ids.len()
        invariant
            i <= m.ids.len(),
            entries.len() == i,
            forall|j: int|
                0 <= j < i ==> ((#[trigger] entries@[j]).0@, entries@[j].1@) == numbered_pairs(
                    m.keys(),
                )[j],
        decreases m.ids.len() - i,
    {
        let l = speaker_label((i as u64) + 1);
        let k = m.ids[i].clone();
        assert(k@ == m.keys()[i as int]);
        entries.push((k, l));
        i += 1;
    }
    let r = LabelMap { entries };
    assert(r.pairs() =~= numbered_pairs(m.keys()));
    r
}

/// `split_by_labels` with each speaker id labelled `Speaker N` from the
/// stream's display map.
pub fn split_by_segments(c: &ChunkRecord, segments: &[Segment], display_map: &DisplayMap) -> (r: Vec<
    LabelledPiece,
>)
    ensures
        exists|labels: LabelMap|
            labels.pairs() == numbered_pairs(display_map.keys()) && piece_views(r@) == split_spec(
                *c,
                segments@,
                labels,
            ),
{
    let labels = display_labels(display_map);
    split_by_labels(c, segments, &labels)
}


// ---------------------------------------------------------------------------
// Chronological order
// ---------------------------------------------------------------------------

/// 0 for the mic stream, 1 for the system stream.
pub open spec fn source_rank(s: ChunkSource) -> int {
    match s {
        ChunkSource::Mic => 0,
        ChunkSource::Sys => 1,
    }
}

/// The `(start_ms, source)` sort key, as one integer.
pub open spec fn chunk_key(c: ChunkRecord) -> int {
    c.start_ms * 2 + source_rank(c.source)
}

/// The chunk indices in `(start_ms, source)` order, ties kept in input order.
pub open spec fn chrono_order(chunks: Seq<ChunkRecord>) -> Seq<usize> {
    stable_order(chunks.map_values(|c: ChunkRecord| chunk_key(c)))
}

/// The chunks in `(start_ms, source)` order, ties kept in input order.
pub open spec fn chrono(chunks: Seq<ChunkRecord>) -> Seq<ChunkRecord> {
    chrono_order(chunks).map_values(|i: usize| chunks[i as int])
}

/// Indices of `chunks` in `(start_ms, source)` order (mic first on a tie,
/// input order among equals).
pub fn chrono_indices(chunks: &[ChunkRecord]) -> (r: Vec<usize>)
    ensures
        r@ == chrono_order(chunks@),
        r.len() == chunks.len(),
        forall|j: int| 0 <= j < r.len() ==> (#[trigger] r@[j]) < chunks.len(),
{
    let mut keys: Vec<u128> = Vec::new();
    let mut i: usize = 0;
    while i < chunks.len()
        invariant
            i <= chunks.len(),
            keys.len() == i,
            forall|j: int|
                0 <= j < i ==> (#[trigger] keys@[j]) as int == chunk_key(chunks@[j]),
        decreases chunks.len() - i,
    {
        let rank: u128 = match chunks[i].source {
            ChunkSource::Mic => 0,
            ChunkSource::Sys => 1,
        };
        keys.push((chunks[i].start_ms as u128) * 2 + rank);
        i += 1;
    }
    let r = stable_order_exec(&keys);
    assert(keys@.map_values(|k: u128| k as int) =~= chunks@.map_values(
        |c: ChunkRecord| chunk_key(c),
    ));
    r
}

// ---------------------------------------------------------------------------
// Hybrid numbering
// ---------------------------------------------------------------------------

/// The segments of the stream `src`.
pub open spec fn stream_segs(src: ChunkSource, mic: Seq<Segment>, sys: Seq<Segment>) -> Seq<
    Segment,
> {
    match src {
        ChunkSource::Mic => mic,
        ChunkSource::Sys => sys,
    }
}

/// The (stream, speaker id) pairs chunk `c` reaches.
pub open spec fn chunk_events(c: ChunkRecord, mic: Seq<Segment>, sys: Seq<Segment>) -> Seq<
    (ChunkSource, Seq<char>),
> {
    ids_at(stream_segs(c.source, mic, sys), lookup_times(c)).map_values(
        |id: Seq<char>| (c.source, id),
    )
}

/// The (stream, speaker id) pairs a chunk sequence reaches, in order.
pub open spec fn all_events(cs: Seq<ChunkRecord>, mic: Seq<Segment>, sys: Seq<Segment>) -> Seq<
    (ChunkSource, Seq<char>),
>
    decreases cs.len(),
{
    if cs.len() == 0 {
        seq![]
    } else {
        all_events(cs.drop_last(), mic, sys) + chunk_events(cs.last(), mic, sys)
    }
}

/// The ids of stream `src` with their numbers, given the numbering order
/// `nb` (the pair at position `i` has number `i + 1`).
pub open spec fn nums_for(nb: Seq<(ChunkSource, Seq<char>)>, src: ChunkSource) -> Seq<
    (Seq<char>, nat),
>
    decreases nb.len(),
{
    if nb.len() == 0 {
        seq![]
    } else {
        nums_for(nb.drop_last(), src) + (if nb.last().0 == src {
            seq![(nb.last().1, nb.len())]
        } else {
            seq![]
        })
    }
}

/// Numbering order of a hybrid recording: every (stream, id) pair in the
/// order the chronological walk first reaches it.
pub open spec fn hybrid_numbering(
    chunks: Seq<ChunkRecord>,
    mic: Seq<Segment>,
    sys: Seq<Segment>,
) -> Seq<(ChunkSource, Seq<char>)> {
    first_occ(all_events(chrono(chunks), mic, sys))
}

pub(crate) proof fn lemma_nums_for_len(nb: Seq<(ChunkSource, Seq<char>)>, src: ChunkSource)
    ensures
        nums_for(nb, src).len() <= nb.len(),
    decreases nb.len(),
{
    if nb.len() > 0 {
        lemma_nums_for_len(nb.drop_last(), src);
    }
}

proof fn lemma_nums_for_contains(
    nb: Seq<(ChunkSource, Seq<char>)>,
    src: ChunkSource,
    id: Seq<char>,
)
    ensures
        nums_for(nb, src).map_values(|e: (Seq<char>, nat)| e.0).contains(id) <==> nb.contains(
            (src, id),
        ),
    decreases nb.len(),
{
    let ks = nums_for(nb, src).map_values(|e: (Seq<char>, nat)| e.0);
    if nb.len() > 0 {
        let d = nb.drop_last();
        lemma_nums_for_contains(d, src, id);
        let kd = nums_for(d, src).map_values(|e: (Seq<char>, nat)| e.0);
        if nb.contains((src, id)) {
            let j = choose|j: int| 0 <= j < nb.len() && nb[j] == (src, id);
            if j < nb.len() - 1 {
                assert(d[j] == (src, id));
                let m = choose|m: int| 0 <= m < kd.len() && kd[m] == id;
                assert(ks[m] == id);
            } else {
                assert(ks[ks.len() - 1] == id);
            }
        }
        if ks.contains(id) {
            let m = choose|m: int| 0 <= m < ks.len() && ks[m] == id;
            if m < kd.len() {
                assert(kd[m] == id);
                let j = choose|j: int| 0 <= j < d.len() && d[j] == (src, id);
                assert(nb[j] == (src, id));
            } else {
                assert(nb.last() == (src, id));
                assert(nb[nb.len() - 1] == (src, id));
            }
        }
    }
}

/// A speaker id → number map.
pub struct NumberMap {
    pub entries: Vec<(String, u32)>,
}

impl NumberMap {
    /// The entries as (id, number) values.
    pub open spec fn pairs(&self) -> Seq<(Seq<char>, nat)> {
        self.entries@.map_values(|e: (String, u32)| (e.0@, e.1 as nat))
    }

    /// The ids, in entry order.
    pub open spec fn ids(&self) -> Seq<Seq<char>> {
        self.pairs().map_values(|e: (Seq<char>, nat)| e.0)
    }
}

/// Whether `m` already numbers `sid`.
fn numbers_id(m: &NumberMap, sid: &String) -> (b: bool)
    ensures
        b == m.ids().contains(sid@),
{
    let key = chars_of(sid.as_str());
    let mut i: usize = 0;
    while i < m.entries.len()
        invariant
            i <= m.entries.len(),
            key@ == sid@,
            forall|j: int| 0 <= j < i ==> m.ids()[j] != sid@,
        decreases m.entries.len() - i,
    {
        let k = chars_of(m.entries[i].0.as_str());
        if chars_eq(&k, &key) {
            assert(m.ids()[i as int] == sid@);
            return true;
        }
        i += 1;
    }
    assert forall|j: int| 0 <= j < m.ids().len() implies m.ids()[j] != sid@ by {}
    false
}

/// The labels a hybrid recording's speakers are shown with.
pub struct HybridLabels {
    pub mic: LabelMap,
    pub sys: LabelMap,
    /// First speaker number not handed out: the fallback label for a stream
    /// whose diarize failed.
    pub next_free: u32,
}

/// `You`.
pub open spec fn you_label() -> Seq<char> {
    seq!['Y', 'o', 'u']
}

/// Each id labelled `Speaker <its number>`.
pub open spec fn number_labels(ps: Seq<(Seq<char>, nat)>) -> Seq<(Seq<char>, Seq<char>)> {
    ps.map_values(|e: (Seq<char>, nat)| (e.0, speaker_prefix() + dec(e.1)))
}

/// The ids in ascending number order (stable), labelled `Speaker 1`, `Speaker 2`, ….
pub open spec fn ranked_labels(ps: Seq<(Seq<char>, nat)>) -> Seq<(Seq<char>, Seq<char>)> {
    let order = stable_order(ps.map_values(|e: (Seq<char>, nat)| e.1 as int));
    Seq::new(
        order.len(),
        |i: int| (ps[order[i] as int].0, speaker_prefix() + dec((i + 1) as nat)),
    )
}

/// What `finalise_stream_labels` produces: (mic labels, sys labels, next free number).
pub open spec fn finalise(
    mic: Seq<(Seq<char>, nat)>,
    sys: Seq<(Seq<char>, nat)>,
    allow_you: bool,
    next: nat,
) -> (Seq<(Seq<char>, Seq<char>)>, Seq<(Seq<char>, Seq<char>)>, nat) {
    if allow_you && mic.len() == 1 {
        (seq![(mic[0].0, you_label())], ranked_labels(sys), sys.len() + 1)
    } else {
        (number_labels(mic), number_labels(sys), next)
    }
}

fn number_label_map(m: &NumberMap) -> (r: LabelMap)
    ensures
        r.pairs() == number_labels(m.pairs()),
{
    let mut entries: Vec<(String, String)> = Vec::new();
    let mut i: usize = 0;
    while i < m.entries.len()
        invariant
            i <= m.entries.len(),
            entries.len() == i,
            forall|j: int|
                0 <= j < i ==> ((#[trigger] entries@[j]).0@, entries@[j].1@) == number_labels(
                    m.pairs(),
                )[j],
        decreases m.entries.len() - i,
    {
        let k = m.entries[i].0.clone();
        let l = speaker_label(m.entries[i].1 as u64);
        entries.push((k, l));
        i += 1;
    }
    let r = LabelMap { entries };
    assert(r.pairs() =~= number_labels(m.pairs()));
    r
}

/// Turn `speaker_id → N` maps into display labels. With `allow_you` and a mic
/// that resolved to exactly one voice, that voice is `You` and the system
/// side is renumbered from 1 in number order; otherwise every voice is
/// `Speaker N`.
pub fn finalise_stream_labels(mic_nums: NumberMap, sys_nums: NumberMap, allow_you: bool, next: u32) -> (r: HybridLabels)
    requires
        sys_nums.entries.len() < u32::MAX,
    ensures
        (r.mic.pairs(), r.sys.pairs(), r.next_free as nat) == finalise(
            mic_nums.pairs(),
            sys_nums.pairs(),
            allow_you,
            next as nat,
        ),
{
    if allow_you && mic_nums.entries.len() == 1 {
        let mut mic_entries: Vec<(String, String)> = Vec::new();
        let you = string_of(&vec!['Y', 'o', 'u']);
        mic_entries.push((mic_nums.entries[0].0.clone(), you));
        let mic = LabelMap { entries: mic_entries };
        assert(mic.pairs() =~= seq![(mic_nums.pairs()[0].0, you_label())]);
        let mut keys: Vec<u128> = Vec::new();
        let mut i: usize = 0;
        while i < sys_nums.entries.len()
            invariant
                i <= sys_nums.entries.len(),
                keys.len() == i,
                forall|j: int|
                    0 <= j < i ==> (#[trigger] keys@[j]) as int == sys_nums.pairs()[j].1 as int,
            decreases sys_nums.entries.len() - i,
        {
            keys.push(sys_nums.entries[i].1 as u128);
            i += 1;
        }
        let order = stable_order_exec(&keys);
        assert(keys@.map_values(|k: u128| k as int) =~= sys_nums.pairs().map_values(
            |e: (Seq<char>, nat)| e.1 as int,
        ));
        let ghost target = ranked_labels(sys_nums.pairs());
        let mut sys_entries: Vec<(String, String)> = Vec::new();
        let mut k: usize = 0;
        while k < order.len()
            invariant
                k <= order.len(),
                order.len() == keys.len(),
                keys.len() == sys_nums.entries.len(),
                sys_nums.entries.len() < u32::MAX,
                forall|j: int| 0 <= j < order.len() ==> (#[trigger] order@[j]) < keys.len(),
                target == ranked_labels(sys_nums.pairs()),
                order@ == stable_order(
                    sys_nums.pairs().map_values(|e: (Seq<char>, nat)| e.1 as int),
                ),
                sys_entries.len() == k,
                forall|j: int|
                    0 <= j < k ==> ((#[trigger] sys_entries@[j]).0@, sys_entries@[j].1@)
                        == target[j],
            decreases order.len() - k,
        {
            let idx = order[k];
            let id = sys_nums.entries[idx].0.clone();
            let l = speaker_label((k as u64) + 1);
            sys_entries.push((id, l));
            k += 1;
        }
        let sys = LabelMap { entries: sys_entries };
        assert(sys.pairs() =~= target);
        let next_free = (sys_nums.entries.len() as u32) + 1;
        return HybridLabels { mic, sys, next_free };
    }
    HybridLabels {
        mic: number_label_map(&mic_nums),
        sys: number_label_map(&sys_nums),
        next_free: next,
    }
}


/// Number `sid` with `next` unless `m` already numbers it.
fn record_number(m: &mut NumberMap, sid: &String, next: u32) -> (added: bool)
    ensures
        added == !old(m).ids().contains(sid@),
        added ==> final(m).pairs() == old(m).pairs().push((sid@, next as nat)),
        !added ==> final(m).pairs() == old(m).pairs(),
{
    if numbers_id(m, sid) {
        false
    } else {
        let ghost before = m.pairs();
        m.entries.push((sid.clone(), next));
        assert(m.pairs() =~= before.push((sid@, next as nat)));
        true
    }
}

proof fn lemma_event_step(
    fo: Seq<(ChunkSource, Seq<char>)>,
    e: (ChunkSource, Seq<char>),
    src: ChunkSource,
)
    ensures
        nums_for(fo.push(e), src) == nums_for(fo, src) + (if e.0 == src {
            seq![(e.1, (fo.len() + 1) as nat)]
        } else {
            seq![]
        }),
{
    assert(fo.push(e).drop_last() =~= fo);
}

proof fn lemma_first_occ_push<T>(a: Seq<T>, e: T)
    ensures
        first_occ(a.push(e)) == (if first_occ(a).contains(e) {
            first_occ(a)
        } else {
            first_occ(a).push(e)
        }),
{
    assert(a.push(e).drop_last() =~= a);
}

/// Apply one reached (stream, id) event to the running numbering.
pub(crate) fn hybrid_event(
    mic: &mut NumberMap,
    sys: &mut NumberMap,
    next: &mut u32,
    src: ChunkSource,
    sid: &String,
    Ghost(evs): Ghost<Seq<(ChunkSource, Seq<char>)>>,
)
    requires
        old(mic).pairs() == nums_for(first_occ(evs), ChunkSource::Mic),
        old(sys).pairs() == nums_for(first_occ(evs), ChunkSource::Sys),
        *old(next) == first_occ(evs).len() + 1,
        first_occ(evs.push((src, sid@))).len() < u32::MAX,
    ensures
        final(mic).pairs() == nums_for(first_occ(evs.push((src, sid@))), ChunkSource::Mic),
        final(sys).pairs() == nums_for(first_occ(evs.push((src, sid@))), ChunkSource::Sys),
        *final(next) == first_occ(evs.push((src, sid@))).len() + 1,
{
    let ghost e = (src, sid@);
    let ghost fo = first_occ(evs);
    proof {
        lemma_first_occ_push(evs, e);
        lemma_nums_for_contains(fo, src, sid@);
        lemma_event_step(fo, e, ChunkSource::Mic);
        lemma_event_step(fo, e, ChunkSource::Sys);
        assert(fo + seq![] =~= fo);
        assert(nums_for(fo, ChunkSource::Mic) + Seq::<(Seq<char>, nat)>::empty() =~= nums_for(
            fo,
            ChunkSource::Mic,
        ));
        assert(nums_for(fo, ChunkSource::Sys) + Seq::<(Seq<char>, nat)>::empty() =~= nums_for(
            fo,
            ChunkSource::Sys,
        ));
    }
    let added = match src {
        ChunkSource::Mic => {
            assert(mic.ids() =~= nums_for(fo, src).map_values(|e: (Seq<char>, nat)| e.0));
            record_number(mic, sid, *next)
        },
        ChunkSource::Sys => {
            assert(sys.ids() =~= nums_for(fo, src).map_values(|e: (Seq<char>, nat)| e.0));
            record_number(sys, sid, *next)
        },
    };
    if added {
        *next = *next + 1;
    }
}

/// Number both streams' speakers of a hybrid recording off one shared
/// counter, walking the chunks in `(start_ms, source)` order (mic first on a
/// tie); only ids some chunk reaches get a number, and a stream with no
/// segments numbers nothing. The result goes through `finalise_stream_labels`
/// with `You` allowed.
pub fn build_hybrid_labels(
    chunks: &[ChunkRecord],
    mic_segments: &[Segment],
    sys_segments: &[Segment],
) -> (r: HybridLabels)
    requires
        hybrid_numbering(chunks@, mic_segments@, sys_segments@).len() < u32::MAX,
    ensures
        ({
            let nb = hybrid_numbering(chunks@, mic_segments@, sys_segments@);
            (r.mic.pairs(), r.sys.pairs(), r.next_free as nat) == finalise(
                nums_for(nb, ChunkSource::Mic),
                nums_for(nb, ChunkSource::Sys),
                true,
                nb.len() + 1,
            )
        }),
{
    let order = chrono_indices(chunks);
    let ghost sorted = chrono(chunks@);
    let ghost total = all_events(sorted, mic_segments@, sys_segments@);
    let mut mic = NumberMap { entries: Vec::new() };
    let mut sys = NumberMap { entries: Vec::new() };
    let mut next: u32 = 1;
    assert(mic.pairs() =~= Seq::<(Seq<char>, nat)>::empty());
    assert(sys.pairs() =~= Seq::<(Seq<char>, nat)>::empty());
    assert(sorted.take(0) =~= Seq::<ChunkRecord>::empty());
    let mut k: usize = 0;
    while k < order.len()
        invariant
            k <= order.len(),
            order@ == chrono_order(chunks@),
            order.len() == chunks.len(),
            forall|j: int| 0 <= j < order.len() ==> (#[trigger] order@[j]) < chunks.len(),
            sorted == chrono(chunks@),
            total == all_events(sorted, mic_segments@, sys_segments@),
            first_occ(total).len() < u32::MAX,
            mic.pairs() == nums_for(
                first_occ(all_events(sorted.take(k as int), mic_segments@, sys_segments@)),
                ChunkSource::Mic,
            ),
            sys.pairs() == nums_for(
                first_occ(all_events(sorted.take(k as int), mic_segments@, sys_segments@)),
                ChunkSource::Sys,
            ),
            next == first_occ(all_events(sorted.take(k as int), mic_segments@, sys_segments@)).len()
                + 1,
        decreases order.len() - k,
    {
        let chunk = &chunks[order[k]];
        let ghost base = all_events(sorted.take(k as int), mic_segments@, sys_segments@);
        assert(sorted[k as int] == *chunk);
        assert(sorted.take(k + 1).drop_last() =~= sorted.take(k as int));
        assert(sorted.take(k + 1).last() == *chunk);
        let ghost ce = chunk_events(*chunk, mic_segments@, sys_segments@);
        assert(all_events(sorted.take(k + 1), mic_segments@, sys_segments@) == base + ce);
        proof {
            lemma_prefix_first_occ_len(sorted, k + 1, mic_segments@, sys_segments@);
        }
        let segs: &[Segment] = match chunk.source {
            ChunkSource::Mic => mic_segments,
            ChunkSource::Sys => sys_segments,
        };
        assert(segs@ == stream_segs(chunk.source, mic_segments@, sys_segments@));
        if segs.len() == 0 {
            assert(ce =~= Seq::<(ChunkSource, Seq<char>)>::empty());
            assert(base + ce =~= base);
        } else if chunk.words.len() == 0 {
            let i = assign_index(chunk.start_ms, segs).unwrap();
            assert(ce =~= seq![(chunk.source, segs@[i as int].speaker_id@)]);
            assert(base + ce =~= base.push((chunk.source, segs@[i as int].speaker_id@)));
            hybrid_event(
                &mut mic,
                &mut sys,
                &mut next,
                chunk.source,
                &segs[i].speaker_id,
                Ghost(base),
            );
        } else {
            let mut wi: usize = 0;
            assert(base + ce.take(0) =~= base);
            while wi < chunk.words.len()
                invariant
                    wi <= chunk.words.len(),
                    segs.len() > 0,
                    segs@ == stream_segs(chunk.source, mic_segments@, sys_segments@),
                    chunk.words.len() > 0,
                    ce == chunk_events(*chunk, mic_segments@, sys_segments@),
                    ce.len() == chunk.words.len(),
                    first_occ(base + ce).len() < u32::MAX,
                    mic.pairs() == nums_for(first_occ(base + ce.take(wi as int)), ChunkSource::Mic),
                    sys.pairs() == nums_for(first_occ(base + ce.take(wi as int)), ChunkSource::Sys),
                    next == first_occ(base + ce.take(wi as int)).len() + 1,
                decreases chunk.words.len() - wi,
            {
                let t = word_abs_exec(chunk.start_ms, &chunk.words[wi]);
                let i = assign_index(t, segs).unwrap();
                let ghost e = (chunk.source, segs@[i as int].speaker_id@);
                assert(ce[wi as int] == e);
                assert(base + ce.take(wi + 1) =~= (base + ce.take(wi as int)).push(e));
                proof {
                    lemma_first_occ_prefix_len(base + ce, base.len() + wi + 1);
                    assert((base + ce).take(base.len() + wi + 1) =~= base + ce.take(wi + 1));
                }
                hybrid_event(
                    &mut mic,
                    &mut sys,
                    &mut next,
                    chunk.source,
                    &segs[i].speaker_id,
                    Ghost(base + ce.take(wi as int)),
                );
                wi += 1;
            }
            assert(ce.take(wi as int) =~= ce);
        }
        k += 1;
    }
    assert(sorted.take(k as int) =~= sorted);
    let ghost nb = first_occ(total);
    proof {
        lemma_nums_for_len(nb, ChunkSource::Sys);
    }
    finalise_stream_labels(mic, sys, true, next)
}

/// `first_occ` of a prefix is no longer than `first_occ` of the whole.
pub(crate) proof fn lemma_first_occ_prefix_len<T>(s: Seq<T>, k: int)
    requires
        0 <= k <= s.len(),
    ensures
        first_occ(s.take(k)).len() <= first_occ(s).len(),
    decreases s.len() - k,
{
    if k < s.len() {
        assert(s.drop_last().take(k) =~= s.take(k));
        lemma_first_occ_prefix_len(s.drop_last(), k);
    } else {
        assert(s.take(k) =~= s);
    }
}

proof fn lemma_all_events_prefix(
    cs: Seq<ChunkRecord>,
    k: int,
    mic: Seq<Segment>,
    sys: Seq<Segment>,
)
    requires
        0 <= k <= cs.len(),
    ensures
        all_events(cs.take(k), mic, sys).is_prefix_of(all_events(cs, mic, sys)),
    decreases cs.len() - k,
{
    if k < cs.len() {
        assert(cs.drop_last().take(k) =~= cs.take(k));
        lemma_all_events_prefix(cs.drop_last(), k, mic, sys);
    } else {
        assert(cs.take(k) =~= cs);
    }
}

proof fn lemma_prefix_first_occ_len(
    cs: Seq<ChunkRecord>,
    k: int,
    mic: Seq<Segment>,
    sys: Seq<Segment>,
)
    requires
        0 <= k <= cs.len(),
    ensures
        first_occ(all_events(cs.take(k), mic, sys)).len() <= first_occ(
            all_events(cs, mic, sys),
        ).len(),
{
    lemma_all_events_prefix(cs, k, mic, sys);
    let a = all_events(cs.take(k), mic, sys);
    let b = all_events(cs, mic, sys);
    assert(b.take(a.len() as int) =~= a);
    lemma_first_occ_prefix_len(b, a.len() as int);
}

} // verus!
