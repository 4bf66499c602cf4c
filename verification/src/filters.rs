//! Guards against speech-to-text output that is not speech: subtitle
//! credits and stock phrases decoded from silence, phrase loops, collapsed
//! word timings, and the language vote over a recording's chunks.
use vstd::prelude::*;
use crate::types::{ChunkRecord, ChunkSource};
use crate::text::{
    char_is_alphanumeric, chars_of, contains_chars, contains_sub, count_words, is_alphanumeric,
    is_ws, join, lowercase_str, occurs_at, occurs_at_exec, slice_sub, split_ws, str_lowercase,
    trim, trim_end, trim_end_chars, utf8_len, utf8_len_at_most,
};

verus! {

// ---------------------------------------------------------------------------
// Collapsed word timings
// ---------------------------------------------------------------------------

/// Shortest run of words pinned to one zero-length instant that counts as a
/// timing collapse.
pub const TIMING_COLLAPSE_RUN: usize = 3;

/// Both spans have zero length and sit at the same instant.
pub open spec fn pinned_together(a: (u64, u64), b: (u64, u64)) -> bool {
    a.0 == a.1 && b.0 == b.1 && a.0 == b.0
}

/// Some three consecutive word spans are pinned to one zero-length instant.
pub open spec fn timing_collapse(spans: Seq<(u64, u64)>) -> bool {
    exists|i: int|
        0 <= i && i + 2 < spans.len() && #[trigger] pinned_together(spans[i], spans[i + 1])
            && pinned_together(spans[i + 1], spans[i + 2])
}

/// Whether a chunk's word timings show the aligner giving up: at least
/// `TIMING_COLLAPSE_RUN` consecutive words on the same instant with zero
/// duration.
pub fn is_timing_collapse(spans: &[(u64, u64)]) -> (b: bool)
    ensures
        b == timing_collapse(spans@),
{
    let mut run: usize = 1;
    let mut i: usize = 1;
    while i < spans.len()
        invariant
            1 <= i <= spans.len() || (spans.len() == 0 && i == 1),
            1 <= run <= 2,
            run == 2 ==> i >= 2 && pinned_together(spans@[i - 2], spans@[i - 1]),
            run == 1 && i >= 2 ==> !pinned_together(spans@[i - 2], spans@[i - 1]),
            forall|j: int|
                0 <= j && j + 2 < i ==> !(#[trigger] pinned_together(spans@[j], spans@[j + 1])
                    && pinned_together(spans@[j + 1], spans@[j + 2])),
        decreases spans.len() - i,
    {
        let prev = spans[i - 1];
        let cur = spans[i];
        let pinned = prev.0 == prev.1 && cur.0 == cur.1 && prev.0 == cur.0;
        if pinned {
            run += 1;
            if run >= TIMING_COLLAPSE_RUN {
                assert(pinned_together(spans@[i - 2], spans@[i - 1]));
                assert(pinned_together(spans@[(i - 2) as int], spans@[(i - 2) + 1]));
                return true;
            }
        } else {
            run = 1;
        }
        i += 1;
    }
    assert forall|j: int|
        0 <= j && j + 2 < spans.len() implies !(#[trigger] pinned_together(spans@[j], spans@[j + 1])
        && pinned_together(spans@[j + 1], spans@[j + 2])) by {}
    false
}

// ---------------------------------------------------------------------------
// Incidental streams
// ---------------------------------------------------------------------------

/// Chunks of stream `src` among the first `n`.
pub open spec fn count_source(chunks: Seq<ChunkRecord>, src: ChunkSource, n: int) -> nat
    decreases n,
{
    if n <= 0 {
        0
    } else {
        count_source(chunks, src, n - 1) + if chunks[n - 1].source == src {
            1nat
        } else {
            0nat
        }
    }
}

pub proof fn lemma_count_source(chunks: Seq<ChunkRecord>, src: ChunkSource, n: int)
    requires
        0 <= n,
    ensures
        count_source(chunks, src, n) <= n,
    decreases n,
{
    if n > 0 {
        lemma_count_source(chunks, src, n - 1);
    }
}

/// Stream `src` carries some chunks but fewer than 1 in 20 of them: a
/// notification chime or a few seconds of video, not a side of the
/// conversation.
pub open spec fn incidental(chunks: Seq<ChunkRecord>, src: ChunkSource) -> bool {
    let n = count_source(chunks, src, chunks.len() as int);
    n > 0 && n * 20 < chunks.len()
}

/// A chunk's word spans as `(start_ms, end_ms)` pairs.
pub open spec fn word_spans(c: ChunkRecord) -> Seq<(u64, u64)> {
    c.words@.map_values(|w: crate::types::ChunkWord| (w.start_ms, w.end_ms))
}

/// Chunk `i` survives: it has no word timings, or its stream is not
/// incidental, or its timings did not collapse.
pub open spec fn survives_incidental(chunks: Seq<ChunkRecord>, i: int) -> bool {
    let c = chunks[i];
    c.words@.len() == 0 || !incidental(chunks, c.source) || !timing_collapse(word_spans(c))
}

/// Indices `< n` of the chunks that survive, in order.
pub open spec fn surviving_upto(chunks: Seq<ChunkRecord>, n: int) -> Seq<int>
    decreases n,
{
    if n <= 0 {
        seq![]
    } else {
        surviving_upto(chunks, n - 1) + if survives_incidental(chunks, n - 1) {
            seq![n - 1]
        } else {
            seq![]
        }
    }
}

fn count_source_exec(chunks: &Vec<ChunkRecord>, src: ChunkSource) -> (n: usize)
    ensures
        n == count_source(chunks@, src, chunks@.len() as int),
        n <= chunks.len(),
{
    let mut n: usize = 0;
    let mut i: usize = 0;
    while i < chunks.len()
        invariant
            i <= chunks.len(),
            n == count_source(chunks@, src, i as int),
            n <= i,
        decreases chunks.len() - i,
    {
        if chunks[i].source == src {
            n += 1;
        }
        i += 1;
    }
    n
}

fn spans_of(c: &ChunkRecord) -> (r: Vec<(u64, u64)>)
    ensures
        r@ == word_spans(*c),
{
    let mut r: Vec<(u64, u64)> = Vec::new();
    let mut i: usize = 0;
    while i < c.words.len()
        invariant
            i <= c.words.len(),
            r@ == word_spans(*c).take(i as int),
        decreases c.words.len() - i,
    {
        r.push((c.words[i].start_ms, c.words[i].end_ms));
        assert(word_spans(*c).take(i + 1) =~= word_spans(*c).take(i as int).push(
            (c.words@[i as int].start_ms, c.words@[i as int].end_ms),
        ));
        i += 1;
    }
    assert(word_spans(*c).take(c.words.len() as int) =~= word_spans(*c));
    r
}

/// Drop the chunks of an incidental stream whose word timings collapsed.
/// Neither signal is enough alone; together they mark a chunk decoded from
/// noise. The stream carrying the meeting is never touched, and chunks
/// without word timings always pass.
pub fn drop_incidental_stream_hallucinations(chunks: Vec<ChunkRecord>) -> (r: Vec<ChunkRecord>)
    ensures
        r.len() == surviving_upto(chunks@, chunks@.len() as int).len(),
        forall|j: int|
            0 <= j < r.len() ==> (#[trigger] r@[j]).same(
                chunks@[surviving_upto(chunks@, chunks@.len() as int)[j]],
            ),
{
    let total = chunks.len();
    let mic_count = count_source_exec(&chunks, ChunkSource::Mic);
    let sys_count = count_source_exec(&chunks, ChunkSource::Sys);
    let mut r: Vec<ChunkRecord> = Vec::new();
    let mut i: usize = 0;
    while i < total
        invariant
            total == chunks.len(),
            i <= total,
            mic_count == count_source(chunks@, ChunkSource::Mic, total as int),
            sys_count == count_source(chunks@, ChunkSource::Sys, total as int),
            mic_count <= total,
            sys_count <= total,
            r.len() == surviving_upto(chunks@, i as int).len(),
            forall|j: int|
                0 <= j < r.len() ==> (#[trigger] r@[j]).same(chunks@[surviving_upto(chunks@, i as int)[j]]),
        decreases total - i,
    {
        let c = &chunks[i];
        let n = match c.source {
            ChunkSource::Mic => mic_count,
            ChunkSource::Sys => sys_count,
        };
        let is_incidental = n > 0 && (n as u128) * 20 < (total as u128);
        let keep = if c.words.len() == 0 || !is_incidental {
            true
        } else {
            let spans = spans_of(c);
            !is_timing_collapse(&spans)
        };
        assert(keep == survives_incidental(chunks@, i as int));
        if keep {
            r.push(c.copy());
        }
        assert forall|j: int| 0 <= j < r.len() implies (#[trigger] r@[j]).same(
            chunks@[surviving_upto(chunks@, i + 1)[j]],
        ) by {
            if j < surviving_upto(chunks@, i as int).len() {
                assert(surviving_upto(chunks@, i + 1)[j] == surviving_upto(chunks@, i as int)[j]);
            }
        }
        i += 1;
    }
    r
}

// ---------------------------------------------------------------------------
// Language vote
// ---------------------------------------------------------------------------

/// A chunk's vote weight: its word count, at least 1.
pub open spec fn vote_weight(c: ChunkRecord) -> nat {
    let n = split_ws(c.text@).len();
    if n == 0 {
        1
    } else {
        n
    }
}

/// The non-empty language a chunk detected, if any.
pub open spec fn detected(c: ChunkRecord) -> Option<Seq<char>> {
    match c.detected_language {
        Some(l) => if l@.len() > 0 {
            Some(l@)
        } else {
            None
        },
        None => None,
    }
}

/// Total weight of the first `n` chunks that detected language `l`.
pub open spec fn language_weight(chunks: Seq<ChunkRecord>, l: Seq<char>, n: int) -> nat
    decreases n,
{
    if n <= 0 {
        0
    } else {
        language_weight(chunks, l, n - 1) + if detected(chunks[n - 1]) == Some(l) {
            vote_weight(chunks[n - 1])
        } else {
            0
        }
    }
}

/// Total weight of the first `n` chunks that detected any language.
pub open spec fn voting_weight(chunks: Seq<ChunkRecord>, n: int) -> nat
    decreases n,
{
    if n <= 0 {
        0
    } else {
        voting_weight(chunks, n - 1) + if detected(chunks[n - 1]) is Some {
            vote_weight(chunks[n - 1])
        } else {
            0
        }
    }
}

/// Language `l` holds at least 3/5 of the weighted vote.
pub open spec fn wins_vote(chunks: Seq<ChunkRecord>, l: Seq<char>) -> bool {
    let total = voting_weight(chunks, chunks.len() as int);
    total > 0 && 5 * language_weight(chunks, l, chunks.len() as int) >= 3 * total
}

/// The languages detected among the first `n` chunks, in order.
pub open spec fn detected_upto(chunks: Seq<ChunkRecord>, n: int) -> Seq<Seq<char>>
    decreases n,
{
    if n <= 0 {
        seq![]
    } else {
        detected_upto(chunks, n - 1) + match detected(chunks[n - 1]) {
            Some(l) => seq![l],
            None => seq![],
        }
    }
}

proof fn lemma_weight_absent(chunks: Seq<ChunkRecord>, l: Seq<char>, n: int)
    requires
        !detected_upto(chunks, n).contains(l),
    ensures
        language_weight(chunks, l, n) == 0,
    decreases n,
{
    if n > 0 {
        let p = detected_upto(chunks, n - 1);
        if p.contains(l) {
            let j = choose|j: int| 0 <= j < p.len() && p[j] == l;
            assert(detected_upto(chunks, n)[j] == l);
        }
        match detected(chunks[n - 1]) {
            Some(m) => {
                assert(detected_upto(chunks, n)[p.len() as int] == m);
            },
            None => {},
        }
        lemma_weight_absent(chunks, l, n - 1);
    }
}

proof fn lemma_weight_bound(chunks: Seq<ChunkRecord>, l: Seq<char>, n: int)
    ensures
        language_weight(chunks, l, n) <= voting_weight(chunks, n),
    decreases n,
{
    if n > 0 {
        lemma_weight_bound(chunks, l, n - 1);
    }
}

proof fn lemma_two_winners(chunks: Seq<ChunkRecord>, a: Seq<char>, b: Seq<char>, n: int)
    requires
        a != b,
    ensures
        language_weight(chunks, a, n) + language_weight(chunks, b, n) <= voting_weight(chunks, n),
    decreases n,
{
    if n > 0 {
        lemma_two_winners(chunks, a, b, n - 1);
    }
}

/// Where `l` stands in `ls`, if it does.
fn index_of_chars(ls: &Vec<Vec<char>>, l: &Vec<char>) -> (r: Option<usize>)
    ensures
        match r {
            Some(j) => j < ls.len() && ls@[j as int]@ == l@,
            None => forall|j: int| 0 <= j < ls.len() ==> ls@[j]@ != l@,
        },
{
    let mut j: usize = 0;
    while j < ls.len()
        invariant
            j <= ls.len(),
            forall|k: int| 0 <= k < j ==> ls@[k]@ != l@,
        decreases ls.len() - j,
    {
        if crate::text::chars_eq(&ls[j], l) {
            return Some(j);
        }
        j += 1;
    }
    None
}

/// The recording's language from the per-chunk detections: each chunk
/// votes for the language it detected with its word count (at least 1),
/// chunks without a detection abstain, and a language wins only with at
/// least 3/5 of the weighted vote. `None` when no language does.
pub fn majority_language(chunks: &[ChunkRecord]) -> (r: Option<String>)
    ensures
        match r {
            Some(l) => wins_vote(chunks@, l@),
            None => forall|l: Seq<char>| !#[trigger] wins_vote(chunks@, l),
        },
{
    let ghost cs = chunks@;
    let mut langs: Vec<Vec<char>> = Vec::new();
    let mut weights: Vec<u128> = Vec::new();
    let mut total: u128 = 0;
    let mut i: usize = 0;
    while i < chunks.len()
        invariant
            i <= chunks.len(),
            cs == chunks@,
            weights.len() == langs.len(),
            forall|j: int| 0 <= j < langs.len() ==> detected_upto(cs, i as int).contains(#[trigger] langs@[j]@),
            forall|l: Seq<char>|
                detected_upto(cs, i as int).contains(l) ==> exists|j: int|
                    0 <= j < langs.len() && (#[trigger] langs@[j])@ == l,
            forall|j: int|
                0 <= j < weights.len() ==> #[trigger] weights@[j] == language_weight(
                    cs,
                    langs@[j]@,
                    i as int,
                ),
            forall|j: int, k: int| 0 <= j < k < langs.len() ==> langs@[j]@ != langs@[k]@,
            total == voting_weight(cs, i as int),
            total <= i * 0xFFFF_FFFF_FFFF_FFFF,
            forall|j: int| 0 <= j < weights.len() ==> #[trigger] weights@[j] <= total,
        decreases chunks.len() - i,
    {
        let ghost prev_langs = langs@;
        match &chunks[i].detected_language {
            Some(l) => {
                let lv = chars_of(l.as_str());
                if lv.len() > 0 {
                    let wc = count_words(&chars_of(chunks[i].text.as_str()));
                    let w: u128 = if wc == 0 {
                        1
                    } else {
                        wc as u128
                    };
                    assert(w == vote_weight(chunks@[i as int]));
                    assert(detected(chunks@[i as int]) == Some(lv@));
                    assert(detected_upto(cs, i + 1) == detected_upto(cs, i as int).push(lv@));
                    total = total + w;
                    let ghost mut at: int = 0;
                    match index_of_chars(&langs, &lv) {
                        Some(j) => {
                            let c = weights[j];
                            weights.set(j, c + w);
                            proof {
                                at = j as int;
                            }
                        },
                        None => {
                            proof {
                                if detected_upto(cs, i as int).contains(lv@) {
                                    let jj = choose|jj: int|
                                        0 <= jj < langs.len() && (#[trigger] langs@[jj])@ == lv@;
                                    assert(false);
                                }
                                lemma_weight_absent(cs, lv@, i as int);
                            }
                            langs.push(lv);
                            weights.push(w);
                            proof {
                                at = langs.len() - 1;
                            }
                        },
                    }
                    assert(0 <= at < langs.len() && langs@[at]@ == lv@);
                    proof {
                        let d1 = detected_upto(cs, i + 1);
                        assert forall|j: int| 0 <= j < langs.len() implies d1.contains(
                            #[trigger] langs@[j]@,
                        ) by {
                            if j < prev_langs.len() {
                                assert(detected_upto(cs, i as int).contains(prev_langs[j]@));
                                let k = choose|k: int|
                                    0 <= k < detected_upto(cs, i as int).len()
                                        && detected_upto(cs, i as int)[k] == prev_langs[j]@;
                                assert(d1[k] == prev_langs[j]@);
                            } else {
                                assert(d1[d1.len() - 1] == lv@);
                            }
                        }
                        assert forall|l2: Seq<char>| d1.contains(l2) implies exists|j: int|
                            0 <= j < langs.len() && (#[trigger] langs@[j])@ == l2 by {
                            let k = choose|k: int| 0 <= k < d1.len() && d1[k] == l2;
                            if k < d1.len() - 1 {
                                assert(detected_upto(cs, i as int)[k] == l2);
                                assert(detected_upto(cs, i as int).contains(l2));
                                let j = choose|j: int|
                                    0 <= j < prev_langs.len() && (#[trigger] prev_langs[j])@ == l2;
                                assert(langs@[j]@ == l2);
                            } else {
                                assert(l2 == lv@);
                                assert(langs@[at]@ == l2);
                            }
                        }
                        assert forall|j: int| 0 <= j < weights.len() implies #[trigger] weights@[j]
                            == language_weight(cs, langs@[j]@, i + 1) by {}
                        assert forall|j: int| 0 <= j < weights.len() implies #[trigger] weights@[j]
                            <= total by {
                            lemma_weight_bound(cs, langs@[j]@, i + 1);
                        }
                    }
                } else {
                    assert(detected(chunks@[i as int]) is None);
                    assert(detected_upto(cs, i + 1) == detected_upto(cs, i as int).add(seq![]));
                    assert(detected_upto(cs, i + 1) =~= detected_upto(cs, i as int));
                }
            },
            None => {
                assert(detected_upto(cs, i + 1) =~= detected_upto(cs, i as int));
            },
        }
        i += 1;
    }
    if total == 0 {
        return None;
    }
    let mut best: usize = 0;
    let mut found = false;
    let mut k: usize = 0;
    while k < weights.len()
        invariant
            k <= weights.len(),
            weights.len() == langs.len(),
            found ==> best < k && forall|j: int| 0 <= j < k ==> weights@[j] <= weights@[best as int],
            !found ==> k == 0,
        decreases weights.len() - k,
    {
        if !found || weights[k] > weights[best] {
            best = k;
            found = true;
        }
        k += 1;
    }
    proof {
        lemma_voting_positive_has_language(cs, cs.len() as int);
        let d = detected_upto(cs, cs.len() as int);
        assert(d.contains(d[0]));
    }
    assert(found);
    let w = weights[best];
    let q = total / 5;
    let rem = total % 5;
    let ceil_part: u128 = if rem == 0 {
        0
    } else if rem == 1 {
        1
    } else if rem <= 3 {
        2
    } else {
        3
    };
    let threshold = 3 * q + ceil_part;
    assert((w >= threshold) == (5 * w >= 3 * total));
    if w >= threshold {
        let l = crate::text::string_of(&langs[best]);
        Some(l)
    } else {
        proof {
            assert forall|l: Seq<char>| !#[trigger] wins_vote(chunks@, l) by {
                if detected_upto(cs, cs.len() as int).contains(l) {
                    let j = choose|j: int| 0 <= j < langs.len() && (#[trigger] langs@[j])@ == l;
                    assert(weights@[j] <= weights@[best as int]);
                } else {
                    lemma_weight_absent(cs, l, cs.len() as int);
                }
            }
        }
        None
    }
}

proof fn lemma_voting_positive_has_language(chunks: Seq<ChunkRecord>, n: int)
    requires
        voting_weight(chunks, n) > 0,
    ensures
        detected_upto(chunks, n).len() > 0,
    decreases n,
{
    if n > 0 {
        if detected(chunks[n - 1]) is None {
            lemma_voting_positive_has_language(chunks, n - 1);
        }
    }
}

// ---------------------------------------------------------------------------
// Phrase loops
// ---------------------------------------------------------------------------

/// `s` without its leading non-alphanumeric characters.
pub open spec fn strip_lead_nonalnum(s: Seq<char>) -> Seq<char>
    decreases s.len(),
{
    if s.len() > 0 && !char_is_alphanumeric(s[0]) {
        strip_lead_nonalnum(s.drop_first())
    } else {
        s
    }
}

/// `s` without its trailing non-alphanumeric characters.
pub open spec fn strip_trail_nonalnum(s: Seq<char>) -> Seq<char>
    decreases s.len(),
{
    if s.len() > 0 && !char_is_alphanumeric(s.last()) {
        strip_trail_nonalnum(s.drop_last())
    } else {
        s
    }
}

/// `s` with non-alphanumeric characters trimmed from both ends.
pub open spec fn trim_nonalnum(s: Seq<char>) -> Seq<char> {
    strip_trail_nonalnum(strip_lead_nonalnum(s))
}

/// The words compared for repetition: each trimmed of non-alphanumeric
/// characters at both ends and lowercased; empty ones dropped.
pub open spec fn loop_words(ws: Seq<Seq<char>>) -> Seq<Seq<char>>
    decreases ws.len(),
{
    if ws.len() == 0 {
        seq![]
    } else {
        let w = str_lowercase(trim_nonalnum(ws.last()));
        loop_words(ws.drop_last()) + if w.len() > 0 {
            seq![w]
        } else {
            seq![]
        }
    }
}

/// Further repetitions of the phrase `ws[s .. s + len]` found back to back
/// from `pos` on.
pub open spec fn more_reps(ws: Seq<Seq<char>>, len: int, s: int, pos: int) -> nat
    decreases ws.len() - pos,
{
    if len > 0 && pos + len <= ws.len() && ws.subrange(pos, pos + len) == ws.subrange(s, s + len) {
        1 + more_reps(ws, len, s, pos + len)
    } else {
        0
    }
}

/// Where that run of repetitions ends.
pub open spec fn run_end(ws: Seq<Seq<char>>, len: int, s: int, pos: int) -> int
    decreases ws.len() - pos,
{
    if len > 0 && pos + len <= ws.len() && ws.subrange(pos, pos + len) == ws.subrange(s, s + len) {
        run_end(ws, len, s, pos + len)
    } else {
        pos
    }
}

pub proof fn lemma_run_end(ws: Seq<Seq<char>>, len: int, s: int, pos: int)
    ensures
        run_end(ws, len, s, pos) >= pos,
        pos <= ws.len() ==> run_end(ws, len, s, pos) <= ws.len(),
    decreases ws.len() - pos,
{
    if len > 0 && pos + len <= ws.len() && ws.subrange(pos, pos + len) == ws.subrange(s, s + len) {
        lemma_run_end(ws, len, s, pos + len);
    }
}

/// A phrase repeated `reps` times in a row among `n` words is a loop: four
/// or more repetitions, or three covering at least 3/5 of the words.
pub open spec fn loop_qualifies(len: int, reps: int, n: int) -> bool {
    reps >= 4 || (reps >= 3 && len * reps * 5 >= n * 3)
}

/// The scan for phrases of length `len` from `s`: the phrase at `s` is
/// followed as far as it repeats, and the scan resumes where that run ends.
pub open spec fn scan_loops(ws: Seq<Seq<char>>, len: int, s: int) -> bool
    decreases ws.len() - s,
{
    if len <= 0 || s < 0 || s + len > ws.len() {
        false
    } else {
        let reps = 1 + more_reps(ws, len, s, s + len);
        let e = run_end(ws, len, s, s + len);
        proof {
            lemma_run_end(ws, len, s, s + len);
        }
        loop_qualifies(len, reps as int, ws.len() as int) || scan_loops(ws, len, e)
    }
}

/// Whether a text is a phrase loop: among its comparison words (at least
/// six), some phrase of 1 to 7 words, with at least three times that many
/// words in the text, repeats four times in a row, or three times covering
/// at least 3/5 of the words.
pub open spec fn repetition_collapse(text: Seq<char>) -> bool {
    let ws = loop_words(split_ws(text));
    ws.len() >= 6 && exists|len: int|
        1 <= len <= 7 && ws.len() >= len * 3 && #[trigger] scan_loops(ws, len, 0)
}

fn trim_nonalnum_chars(v: &Vec<char>) -> (r: Vec<char>)
    ensures
        r@ == trim_nonalnum(v@),
{
    let mut i: usize = 0;
    assert(v@.skip(0) =~= v@);
    while i < v.len() && !is_alphanumeric(v[i])
        invariant
            i <= v.len(),
            strip_lead_nonalnum(v@) == strip_lead_nonalnum(v@.skip(i as int)),
        decreases v.len() - i,
    {
        assert(v@.skip(i as int).drop_first() =~= v@.skip(i + 1));
        i += 1;
    }
    let a = slice_sub(v, i, v.len());
    assert(a@ =~= v@.skip(i as int));
    let mut j: usize = a.len();
    assert(a@.take(j as int) =~= a@);
    while j > 0 && !is_alphanumeric(a[j - 1])
        invariant
            j <= a.len(),
            strip_trail_nonalnum(a@) == strip_trail_nonalnum(a@.take(j as int)),
        decreases j,
    {
        assert(a@.take(j as int).drop_last() =~= a@.take(j - 1));
        j -= 1;
    }
    slice_sub(&a, 0, j)
}

fn loop_words_exec(text: &str) -> (r: Vec<Vec<char>>)
    ensures
        crate::text::seqs(r@) == loop_words(split_ws(text@)),
{
    let raw = crate::text::split_whitespace(&chars_of(text));
    let ghost rs = crate::text::seqs(raw@);
    let mut out: Vec<Vec<char>> = Vec::new();
    let mut i: usize = 0;
    while i < raw.len()
        invariant
            i <= raw.len(),
            rs == crate::text::seqs(raw@),
            rs == split_ws(text@),
            crate::text::seqs(out@) == loop_words(rs.take(i as int)),
        decreases raw.len() - i,
    {
        assert(rs.take(i + 1).drop_last() =~= rs.take(i as int));
        assert(rs.take(i + 1).last() == raw@[i as int]@);
        let t = trim_nonalnum_chars(&raw[i]);
        let ts = crate::text::string_of(&t);
        let low = lowercase_str(ts.as_str());
        let lv = chars_of(low.as_str());
        let ghost before = crate::text::seqs(out@);
        if lv.len() > 0 {
            out.push(lv);
            assert(crate::text::seqs(out@) =~= before.push(lv@));
        }
        assert(crate::text::seqs(out@) =~= loop_words(rs.take(i + 1)));
        i += 1;
    }
    assert(rs.take(raw.len() as int) =~= rs);
    out
}

/// Whether the phrases of length `len` at `a` and `b` are the same words.
fn phrase_eq(ws: &Vec<Vec<char>>, a: usize, b: usize, len: usize) -> (r: bool)
    requires
        a + len <= ws.len(),
        b + len <= ws.len(),
    ensures
        r == (crate::text::seqs(ws@).subrange(a as int, a + len) == crate::text::seqs(ws@).subrange(
            b as int,
            b + len,
        )),
{
    let ghost sw = crate::text::seqs(ws@);
    let ghost sa = sw.subrange(a as int, a + len);
    let ghost sb = sw.subrange(b as int, b + len);
    let mut k: usize = 0;
    while k < len
        invariant
            k <= len,
            a + len <= ws.len(),
            b + len <= ws.len(),
            sw == crate::text::seqs(ws@),
            sa == sw.subrange(a as int, a + len),
            sb == sw.subrange(b as int, b + len),
            forall|j: int| 0 <= j < k ==> sa[j] == sb[j],
        decreases len - k,
    {
        assert(sa[k as int] == ws@[a + k]@);
        assert(sb[k as int] == ws@[b + k]@);
        if !crate::text::chars_eq(&ws[a + k], &ws[b + k]) {
            return false;
        }
        k += 1;
    }
    assert(sa =~= sb);
    true
}

/// Detect a chunk dominated by a repeated phrase (the low-signal decoding
/// failure where one phrase comes out again and again): among at least six
/// comparison words, a phrase of 1 to 7 words repeating four times in a row,
/// or three times while covering at least 3/5 of the words.
pub fn is_repetition_collapse(text: &str) -> (b: bool)
    ensures
        b == repetition_collapse(text@),
{
    let words = loop_words_exec(text);
    let ghost ws = crate::text::seqs(words@);
    let n = words.len();
    if n < 6 {
        return false;
    }
    let mut len: usize = 1;
    while len <= 7
        invariant
            1 <= len <= 8,
            n == words.len(),
            ws == crate::text::seqs(words@),
            ws == loop_words(split_ws(text@)),
            ws.len() == n,
            n >= 6,
            forall|l: int| 1 <= l < len && n >= l * 3 ==> !#[trigger] scan_loops(ws, l, 0),
        decreases 8 - len,
    {
        if n >= len * 3 {
            let mut start: usize = 0;
            while start <= n - len
                invariant
                    1 <= len <= 7,
                    len <= n,
                    start <= n,
                    n == words.len(),
                    ws == crate::text::seqs(words@),
                    ws == loop_words(split_ws(text@)),
                    ws.len() == n,
                    n >= 6,
                    n >= len * 3,
                    scan_loops(ws, len as int, 0) == scan_loops(ws, len as int, start as int),
                decreases n - start,
            {
                let mut reps: usize = 1;
                let mut pos: usize = start + len;
                while pos <= n - len && phrase_eq(&words, pos, start, len)
                    invariant
                        1 <= len <= 7,
                        len <= n,
                        start + len <= pos <= n,
                        n == words.len(),
                        ws == crate::text::seqs(words@),
                        1 <= reps <= pos,
                        1 + more_reps(ws, len as int, start as int, start + len) == reps
                            + more_reps(ws, len as int, start as int, pos as int),
                        run_end(ws, len as int, start as int, start + len) == run_end(
                            ws,
                            len as int,
                            start as int,
                            pos as int,
                        ),
                    decreases n - pos,
                {
                    reps += 1;
                    pos += len;
                }
                assert(more_reps(ws, len as int, start as int, pos as int) == 0);
                assert(run_end(ws, len as int, start as int, pos as int) == pos);
                if reps >= 4 {
                    assert(scan_loops(ws, len as int, start as int));
                    assert(scan_loops(ws, len as int, 0));
                    return true;
                }
                assert((len as u128) * (reps as u128) <= 7 * 0xFFFF_FFFF_FFFF_FFFFu128) by (nonlinear_arith)
                    requires
                        len <= 7,
                        reps <= 0xFFFF_FFFF_FFFF_FFFFu128,
                ;
                let lr = (len as u128) * (reps as u128);
                let cover = lr * 5;
                if reps >= 3 && cover >= (n as u128) * 3 {
                    assert(scan_loops(ws, len as int, start as int));
                    assert(scan_loops(ws, len as int, 0));
                    return true;
                }
                assert(!loop_qualifies(len as int, reps as int, n as int));
                start = pos;
            }
            assert(!scan_loops(ws, len as int, start as int));
        }
        len += 1;
    }
    assert forall|l: int| 1 <= l <= 7 && ws.len() >= l * 3 implies !#[trigger] scan_loops(ws, l, 0) by {}
    false
}

// ---------------------------------------------------------------------------
// Subtitle credits and stock phrases
// ---------------------------------------------------------------------------

/// `char::to_ascii_lowercase`.
pub open spec fn ascii_lower(c: char) -> char {
    if 'A' <= c <= 'Z' {
        ((c as u32) + 32) as char
    } else {
        c
    }
}

/// `str::to_ascii_lowercase`.
pub open spec fn ascii_lower_str(s: Seq<char>) -> Seq<char> {
    s.map_values(|c: char| ascii_lower(c))
}

fn ascii_lower_chars(v: &Vec<char>) -> (r: Vec<char>)
    ensures
        r@ == ascii_lower_str(v@),
{
    let mut r: Vec<char> = Vec::new();
    let mut i: usize = 0;
    while i < v.len()
        invariant
            i <= v.len(),
            r@ == ascii_lower_str(v@).take(i as int),
        decreases v.len() - i,
    {
        let c = v[i];
        let l = if 'A' <= c && c <= 'Z' {
            ((c as u8) + 32) as char
        } else {
            c
        };
        assert(l == ascii_lower(c));
        r.push(l);
        assert(ascii_lower_str(v@).take(i + 1) =~= ascii_lower_str(v@).take(i as int).push(l));
        i += 1;
    }
    assert(ascii_lower_str(v@).take(v.len() as int) =~= ascii_lower_str(v@));
    r
}

/// Subtitle-credit and sign-off phrases that mark the tail of a chunk as
/// memorised caption text rather than speech.
pub open spec fn attribution_triggers() -> Seq<Seq<char>> {
    seq![
        "undertekster av"@,
        "undertekstet av"@,
        "tekstet av"@,
        "tekster av"@,
        "teksting av"@,
        "norske tekster"@,
        "oversatt av"@,
        "oversettelse av"@,
        "subtitles by"@,
        "subtitled by"@,
        "captions by"@,
        "captioning by"@,
        "closed captions"@,
        "translation by"@,
        "translated by"@,
        "transcribed by"@,
        "amara.org"@,
        "ai-media"@,
        "thanks for watching"@,
        "thank you for watching"@,
        "subscribe to"@,
        "like and subscribe"@,
        "see you next time"@,
        "see you in the next"@,
    ]
}

fn attribution_triggers_exec() -> (r: Vec<Vec<char>>)
    ensures
        crate::text::seqs(r@) == attribution_triggers(),
{
    let mut r: Vec<Vec<char>> = Vec::new();
    r.push(chars_of("undertekster av"));
    r.push(chars_of("undertekstet av"));
    r.push(chars_of("tekstet av"));
    r.push(chars_of("tekster av"));
    r.push(chars_of("teksting av"));
    r.push(chars_of("norske tekster"));
    r.push(chars_of("oversatt av"));
    r.push(chars_of("oversettelse av"));
    r.push(chars_of("subtitles by"));
    r.push(chars_of("subtitled by"));
    r.push(chars_of("captions by"));
    r.push(chars_of("captioning by"));
    r.push(chars_of("closed captions"));
    r.push(chars_of("translation by"));
    r.push(chars_of("translated by"));
    r.push(chars_of("transcribed by"));
    r.push(chars_of("amara.org"));
    r.push(chars_of("ai-media"));
    r.push(chars_of("thanks for watching"));
    r.push(chars_of("thank you for watching"));
    r.push(chars_of("subscribe to"));
    r.push(chars_of("like and subscribe"));
    r.push(chars_of("see you next time"));
    r.push(chars_of("see you in the next"));
    assert(crate::text::seqs(r@) =~= attribution_triggers());
    r
}

/// Start of the last occurrence of `n` in `h` at or before `k`, or -1.
pub open spec fn last_occurrence_upto(h: Seq<char>, n: Seq<char>, k: int) -> int
    decreases k + 1,
{
    if k < 0 {
        -1
    } else if occurs_at(h, n, k) {
        k
    } else {
        last_occurrence_upto(h, n, k - 1)
    }
}

/// Start of the last occurrence of `n` in `h`, or -1 (`str::rfind`).
pub open spec fn last_occurrence(h: Seq<char>, n: Seq<char>) -> int {
    last_occurrence_upto(h, n, h.len() - n.len())
}

/// `.`, `!`, `?` or a newline.
pub open spec fn is_boundary_char(c: char) -> bool {
    c == '.' || c == '!' || c == '?' || c == '\n'
}

/// Index of the last sentence boundary before `p`, or -1.
pub open spec fn last_boundary_before(t: Seq<char>, p: int) -> int
    decreases p,
{
    if p <= 0 {
        -1
    } else if is_boundary_char(t[p - 1]) {
        p - 1
    } else {
        last_boundary_before(t, p - 1)
    }
}

/// Where trigger `trig` cuts `text`: back from its last occurrence to just
/// after the preceding sentence boundary (or at the occurrence when there
/// is none); `None` when it does not occur.
pub open spec fn trigger_cut(text: Seq<char>, trig: Seq<char>) -> Option<int> {
    let p = last_occurrence(ascii_lower_str(text), trig);
    if p < 0 {
        None
    } else {
        let j = last_boundary_before(text, p);
        Some(if j >= 0 {
            j + 1
        } else {
            p
        })
    }
}

/// The earliest cut any of the first `k` triggers makes.
pub open spec fn earliest_cut(text: Seq<char>, trigs: Seq<Seq<char>>, k: int) -> Option<int>
    decreases k,
{
    if k <= 0 {
        None
    } else {
        let prev = earliest_cut(text, trigs, k - 1);
        match trigger_cut(text, trigs[k - 1]) {
            Some(c) => match prev {
                Some(q) => Some(if q <= c {
                    q
                } else {
                    c
                }),
                None => Some(c),
            },
            None => prev,
        }
    }
}

/// What `strip_attribution_tail` returns.
pub open spec fn attribution_stripped(text: Seq<char>) -> Seq<char> {
    let trigs = attribution_triggers();
    match earliest_cut(text, trigs, trigs.len() as int) {
        Some(c) => trim_end(text.take(c)),
        None => text,
    }
}

fn last_occurrence_exec(h: &Vec<char>, n: &Vec<char>) -> (r: Option<usize>)
    ensures
        match r {
            Some(p) => last_occurrence(h@, n@) == p && p + n.len() <= h.len(),
            None => last_occurrence(h@, n@) == -1,
        },
{
    if n.len() > h.len() {
        return None;
    }
    let mut k: usize = h.len() - n.len();
    loop
        invariant
            n.len() <= h.len(),
            k <= h.len() - n.len(),
            last_occurrence(h@, n@) == last_occurrence_upto(h@, n@, k as int),
        decreases k,
    {
        if occurs_at_exec(h, n, k) {
            return Some(k);
        }
        if k == 0 {
            assert(last_occurrence_upto(h@, n@, -1) == -1);
            return None;
        }
        k -= 1;
    }
}

fn last_boundary_exec(t: &Vec<char>, p: usize) -> (r: Option<usize>)
    requires
        p <= t.len(),
    ensures
        match r {
            Some(j) => last_boundary_before(t@, p as int) == j && j < p,
            None => last_boundary_before(t@, p as int) == -1,
        },
{
    let mut k = p;
    while k > 0 && !(t[k - 1] == '.' || t[k - 1] == '!' || t[k - 1] == '?' || t[k - 1] == '\n')
        invariant
            k <= p <= t.len(),
            last_boundary_before(t@, p as int) == last_boundary_before(t@, k as int),
        decreases k,
    {
        k -= 1;
    }
    if k == 0 {
        None
    } else {
        Some(k - 1)
    }
}

/// Cut a chunk back to the sentence boundary before any subtitle-credit or
/// sign-off phrase (matched case-insensitively over ASCII), dropping the
/// credit and any trailing whitespace; text without one is returned as is.
pub fn strip_attribution_tail(text: &str) -> (r: String)
    ensures
        r@ == attribution_stripped(text@),
{
    let v = chars_of(text);
    let lower = ascii_lower_chars(&v);
    let trigs = attribution_triggers_exec();
    let ghost ts = attribution_triggers();
    let mut cut: Option<usize> = None;
    let mut k: usize = 0;
    while k < trigs.len()
        invariant
            k <= trigs.len(),
            crate::text::seqs(trigs@) == ts,
            ts == attribution_triggers(),
            lower@ == ascii_lower_str(v@),
            lower.len() == v.len(),
            v@ == text@,
            match cut {
                Some(c) => earliest_cut(v@, ts, k as int) == Some(c as int) && c <= v.len(),
                None => earliest_cut(v@, ts, k as int) is None,
            },
        decreases trigs.len() - k,
    {
        assert(trigs@[k as int]@ == ts[k as int]);
        match last_occurrence_exec(&lower, &trigs[k]) {
            Some(p) => {
                let b = last_boundary_exec(&v, p);
                let start = match b {
                    Some(j) => j + 1,
                    None => p,
                };
                cut = match cut {
                    Some(c) => Some(if c <= start {
                        c
                    } else {
                        start
                    }),
                    None => Some(start),
                };
            },
            None => {},
        }
        k += 1;
    }
    match cut {
        Some(c) => {
            let head = slice_sub(&v, 0, c);
            assert(head@ =~= v@.take(c as int));
            let t = trim_end_chars(&head);
            crate::text::string_of(&t)
        },
        None => crate::text::string_of(&v),
    }
}

/// Caption-attribution fragments that mark a short chunk as decoded silence.
pub open spec fn attribution_fragments() -> Seq<Seq<char>> {
    seq![
        "thanks for watching"@,
        "thank you for watching"@,
        "subscribe to"@,
        "subtitles by"@,
        "subtitled by"@,
        "amara.org"@,
        "transcribed by"@,
    ]
}

fn attribution_fragments_exec() -> (r: Vec<Vec<char>>)
    ensures
        crate::text::seqs(r@) == attribution_fragments(),
{
    let mut r: Vec<Vec<char>> = Vec::new();
    r.push(chars_of("thanks for watching"));
    r.push(chars_of("thank you for watching"));
    r.push(chars_of("subscribe to"));
    r.push(chars_of("subtitles by"));
    r.push(chars_of("subtitled by"));
    r.push(chars_of("amara.org"));
    r.push(chars_of("transcribed by"));
    assert(crate::text::seqs(r@) =~= attribution_fragments());
    r
}

/// Stock one-phrase outputs (greetings, thanks, backchannels) decoded from
/// silence, compared against the normalized text.
pub open spec fn short_hallucinations() -> Seq<Seq<char>> {
    seq![
        "hi"@,
        "hello"@,
        "bye"@,
        "thanks"@,
        "thank you"@,
        "okay"@,
        "yeah"@,
        "mhm"@,
        "mhmm"@,
        "uh huh"@,
        "uhhuh"@,
        "mm"@,
        "mmm"@,
        "hm"@,
        "hmm"@,
        "ah"@,
        "oh"@,
        "right"@,
        "you"@,
        "hei"@,
        "hej"@,
        "hallo"@,
        "takk"@,
        "tak"@,
        "tack"@,
        "ha det"@,
        "ja vel"@,
        "mhm"@,
        "danke"@,
        "tschuss"@,
        "tschüss"@,
        "merci"@,
        "bonjour"@,
        "au revoir"@,
        "salut"@,
        "hola"@,
        "gracias"@,
        "adios"@,
        "ありがとう"@,
        "こんにちは"@,
        "さようなら"@,
    ]
}

fn short_hallucinations_exec() -> (r: Vec<Vec<char>>)
    ensures
        crate::text::seqs(r@) == short_hallucinations(),
{
    let mut r: Vec<Vec<char>> = Vec::new();
    r.push(chars_of("hi"));
    r.push(chars_of("hello"));
    r.push(chars_of("bye"));
    r.push(chars_of("thanks"));
    r.push(chars_of("thank you"));
    r.push(chars_of("okay"));
    r.push(chars_of("yeah"));
    r.push(chars_of("mhm"));
    r.push(chars_of("mhmm"));
    r.push(chars_of("uh huh"));
    r.push(chars_of("uhhuh"));
    r.push(chars_of("mm"));
    r.push(chars_of("mmm"));
    r.push(chars_of("hm"));
    r.push(chars_of("hmm"));
    r.push(chars_of("ah"));
    r.push(chars_of("oh"));
    r.push(chars_of("right"));
    r.push(chars_of("you"));
    r.push(chars_of("hei"));
    r.push(chars_of("hej"));
    r.push(chars_of("hallo"));
    r.push(chars_of("takk"));
    r.push(chars_of("tak"));
    r.push(chars_of("tack"));
    r.push(chars_of("ha det"));
    r.push(chars_of("ja vel"));
    r.push(chars_of("mhm"));
    r.push(chars_of("danke"));
    r.push(chars_of("tschuss"));
    r.push(chars_of("tschüss"));
    r.push(chars_of("merci"));
    r.push(chars_of("bonjour"));
    r.push(chars_of("au revoir"));
    r.push(chars_of("salut"));
    r.push(chars_of("hola"));
    r.push(chars_of("gracias"));
    r.push(chars_of("adios"));
    r.push(chars_of("ありがとう"));
    r.push(chars_of("こんにちは"));
    r.push(chars_of("さようなら"));
    assert(crate::text::seqs(r@) =~= short_hallucinations());
    r
}

/// `s` keeping only alphanumeric and whitespace characters.
pub open spec fn keep_alnum_ws(s: Seq<char>) -> Seq<char>
    decreases s.len(),
{
    if s.len() == 0 {
        seq![]
    } else {
        keep_alnum_ws(s.drop_last()) + if char_is_alphanumeric(s.last()) || is_ws(s.last()) {
            seq![s.last()]
        } else {
            seq![]
        }
    }
}

/// `t` has an alphanumeric character.
pub open spec fn has_alnum(t: Seq<char>) -> bool {
    exists|i: int| 0 <= i < t.len() && char_is_alphanumeric(#[trigger] t[i])
}

/// Whether a chunk is most likely decoded silence: blank or without any
/// alphanumeric character; or at most 120 bytes (after trimming) and either
/// containing a caption-attribution fragment or, lowercased with
/// punctuation dropped and whitespace collapsed, exactly a stock phrase.
pub open spec fn likely_hallucination(text: Seq<char>) -> bool {
    let t = trim(text);
    if t.len() == 0 || !has_alnum(t) {
        true
    } else if utf8_len(t) > 120 {
        false
    } else {
        let lower = str_lowercase(t);
        let frags = attribution_fragments();
        if exists|i: int| 0 <= i < frags.len() && #[trigger] contains_sub(lower, frags[i]) {
            true
        } else {
            let normalized = str_lowercase(join(split_ws(keep_alnum_ws(t)), seq![' ']));
            short_hallucinations().contains(normalized)
        }
    }
}

fn keep_alnum_ws_chars(v: &Vec<char>) -> (r: Vec<char>)
    ensures
        r@ == keep_alnum_ws(v@),
{
    let mut r: Vec<char> = Vec::new();
    let mut i: usize = 0;
    while i < v.len()
        invariant
            i <= v.len(),
            r@ == keep_alnum_ws(v@.take(i as int)),
        decreases v.len() - i,
    {
        assert(v@.take(i + 1).drop_last() =~= v@.take(i as int));
        let c = v[i];
        if is_alphanumeric(c) || crate::text::is_whitespace(c) {
            r.push(c);
        }
        assert(r@ =~= keep_alnum_ws(v@.take(i + 1)));
        i += 1;
    }
    assert(v@.take(v.len() as int) =~= v@);
    r
}

fn holds_chars_in(list: &Vec<Vec<char>>, w: &Vec<char>) -> (b: bool)
    ensures
        b == crate::text::seqs(list@).contains(w@),
{
    let mut i: usize = 0;
    while i < list.len()
        invariant
            i <= list.len(),
            forall|j: int| 0 <= j < i ==> list@[j]@ != w@,
        decreases list.len() - i,
    {
        if crate::text::chars_eq(&list[i], w) {
            assert(crate::text::seqs(list@)[i as int] == w@);
            return true;
        }
        i += 1;
    }
    assert forall|j: int| 0 <= j < list.len() implies crate::text::seqs(list@)[j] != w@ by {}
    false
}

/// Whether a chunk is most likely decoded silence rather than speech: blank
/// or punctuation-only output always is; a short chunk (at most 120 bytes)
/// is when it holds a caption-attribution fragment or is exactly a stock
/// greeting, thanks or backchannel once lowercased with punctuation dropped.
/// The language argument is not consulted.
pub fn is_likely_hallucination(text: &str, _language: &str) -> (b: bool)
    ensures
        b == likely_hallucination(text@),
{
    let v = chars_of(text);
    let t = crate::text::trim_chars(&v);
    if t.len() == 0 {
        return true;
    }
    let mut i: usize = 0;
    let mut found = false;
    while i < t.len()
        invariant
            i <= t.len(),
            !found ==> forall|j: int| 0 <= j < i ==> !char_is_alphanumeric(t@[j]),
            found ==> has_alnum(t@),
        decreases t.len() - i,
    {
        if is_alphanumeric(t[i]) {
            found = true;
        }
        i += 1;
    }
    if !found {
        return true;
    }
    if !utf8_len_at_most(&t, 120) {
        return false;
    }
    let ts = crate::text::string_of(&t);
    let lower = chars_of(lowercase_str(ts.as_str()).as_str());
    let frags = attribution_fragments_exec();
    let ghost fs = attribution_fragments();
    let mut k: usize = 0;
    while k < frags.len()
        invariant
            k <= frags.len(),
            crate::text::seqs(frags@) == fs,
            fs == attribution_fragments(),
            forall|j: int| 0 <= j < k ==> !#[trigger] contains_sub(lower@, fs[j]),
            lower@ == str_lowercase(t@),
            t@ == trim(text@),
            t@.len() > 0,
            has_alnum(t@),
            utf8_len(t@) <= 120,
        decreases frags.len() - k,
    {
        assert(frags@[k as int]@ == fs[k as int]);
        if contains_chars(&lower, &frags[k]) {
            assert(contains_sub(lower@, fs[k as int]));
            return true;
        }
        k += 1;
    }
    let kept = keep_alnum_ws_chars(&t);
    let words = crate::text::split_whitespace(&kept);
    let sep: Vec<char> = vec![' '];
    assert(sep@ =~= seq![' ']);
    let joined = crate::text::join_chars(&words, &sep);
    let js = crate::text::string_of(&joined);
    let normalized = chars_of(lowercase_str(js.as_str()).as_str());
    let list = short_hallucinations_exec();
    holds_chars_in(&list, &normalized)
}

// ---------------------------------------------------------------------------
// Laws
// ---------------------------------------------------------------------------

/// At most one language can win the vote: two winners would each hold 3/5
/// of the same total.
pub proof fn law_single_language_winner(chunks: Seq<ChunkRecord>, a: Seq<char>, b: Seq<char>)
    requires
        wins_vote(chunks, a),
        wins_vote(chunks, b),
    ensures
        a == b,
{
    if a != b {
        lemma_two_winners(chunks, a, b, chunks.len() as int);
    }
}

proof fn lemma_earliest_cut_bound(text: Seq<char>, trigs: Seq<Seq<char>>, k: int)
    requires
        0 <= k <= trigs.len(),
    ensures
        earliest_cut(text, trigs, k) matches Some(c) ==> 0 <= c <= text.len(),
    decreases k,
{
    if k > 0 {
        lemma_earliest_cut_bound(text, trigs, k - 1);
        let t = trigs[k - 1];
        let p = last_occurrence(ascii_lower_str(text), t);
        if p >= 0 {
            lemma_last_occurrence_bound(ascii_lower_str(text), t, text.len() - t.len());
            lemma_last_boundary_bound(text, p);
        }
    }
}

proof fn lemma_last_occurrence_bound(h: Seq<char>, n: Seq<char>, k: int)
    ensures
        last_occurrence_upto(h, n, k) >= 0 ==> occurs_at(h, n, last_occurrence_upto(h, n, k)),
    decreases k + 1,
{
    if k >= 0 && !occurs_at(h, n, k) {
        lemma_last_occurrence_bound(h, n, k - 1);
    }
}

proof fn lemma_last_boundary_bound(t: Seq<char>, p: int)
    requires
        p >= 0,
    ensures
        last_boundary_before(t, p) < p,
        last_boundary_before(t, p) >= -1,
    decreases p,
{
    if p > 0 && !is_boundary_char(t[p - 1]) {
        lemma_last_boundary_bound(t, p - 1);
    }
}

/// Stripping subtitle credits only ever cuts text off the end: the result
/// is a prefix of the chunk.
pub proof fn law_attribution_strip_is_prefix(text: Seq<char>)
    ensures
        attribution_stripped(text).is_prefix_of(text),
{
    let trigs = attribution_triggers();
    lemma_earliest_cut_bound(text, trigs, trigs.len() as int);
    match earliest_cut(text, trigs, trigs.len() as int) {
        Some(c) => {
            crate::text::lemma_trim_end_shape(text.take(c));
        },
        None => {},
    }
}

proof fn lemma_last_occurrence_at_least(h: Seq<char>, n: Seq<char>, q: int, k: int)
    requires
        occurs_at(h, n, q),
        q <= k,
    ensures
        last_occurrence_upto(h, n, k) >= q,
        (forall|i: int| q < i <= k ==> !occurs_at(h, n, i)) ==> last_occurrence_upto(h, n, k) == q,
    decreases k + 1,
{
    if k > q && !occurs_at(h, n, k) {
        lemma_last_occurrence_at_least(h, n, q, k - 1);
    }
}

proof fn lemma_last_boundary_is_boundary(t: Seq<char>, p: int)
    requires
        0 <= p <= t.len(),
    ensures
        last_boundary_before(t, p) >= 0 ==> is_boundary_char(t[last_boundary_before(t, p)]),
    decreases p,
{
    if p > 0 && !is_boundary_char(t[p - 1]) {
        lemma_last_boundary_is_boundary(t, p - 1);
    }
}

/// No sentence boundary among the first `q` characters of `text`.
pub open spec fn no_boundary_before(text: Seq<char>, q: int) -> bool {
    forall|i: int| 0 <= i < q ==> !is_boundary_char(#[trigger] text[i])
}

/// No credit phrase occurs (in the ASCII-lowered text) before position `q`.
pub open spec fn no_trigger_before(text: Seq<char>, q: int) -> bool {
    forall|m: int, i: int|
        0 <= m < attribution_triggers().len() && 0 <= i < q ==> !(#[trigger] occurs_at(
            ascii_lower_str(text),
            attribution_triggers()[m],
            i,
        ))
}

proof fn lemma_cut_after(text: Seq<char>, q: int, m: int)
    requires
        0 <= m < attribution_triggers().len(),
        no_boundary_before(text, q),
        no_trigger_before(text, q),
    ensures
        trigger_cut(text, attribution_triggers()[m]) matches Some(c) ==> c >= q,
{
    let t = attribution_triggers()[m];
    let h = ascii_lower_str(text);
    let p = last_occurrence(h, t);
    if p >= 0 {
        lemma_last_occurrence_bound(h, t, h.len() - t.len());
        assert(occurs_at(h, t, p));
        assert(p >= q);
        lemma_last_boundary_bound(text, p);
        lemma_last_boundary_is_boundary(text, p);
        let j = last_boundary_before(text, p);
        if j >= 0 && j < q {
            assert(!is_boundary_char(text[j]));
        }
    }
}

proof fn lemma_earliest_cut_after(text: Seq<char>, q: int, k: int)
    requires
        0 <= k <= attribution_triggers().len(),
        no_boundary_before(text, q),
        no_trigger_before(text, q),
    ensures
        earliest_cut(text, attribution_triggers(), k) matches Some(c) ==> c >= q,
    decreases k,
{
    if k > 0 {
        lemma_earliest_cut_after(text, q, k - 1);
        lemma_cut_after(text, q, k - 1);
    }
}

proof fn lemma_earliest_cut_at_most(text: Seq<char>, trigs: Seq<Seq<char>>, n: int, k: int, ck: int)
    requires
        0 <= k < n <= trigs.len(),
        trigger_cut(text, trigs[k]) == Some(ck),
    ensures
        earliest_cut(text, trigs, n) matches Some(c) && c <= ck,
    decreases n,
{
    if k < n - 1 {
        lemma_earliest_cut_at_most(text, trigs, n - 1, k, ck);
    }
}

proof fn lemma_trim_end_take_grows(text: Seq<char>, q: int, c: int)
    requires
        0 <= q <= c <= text.len(),
    ensures
        trim_end(text.take(q)).is_prefix_of(trim_end(text.take(c))),
{
    let a = trim_end(text.take(q));
    let b = trim_end(text.take(c));
    crate::text::lemma_trim_end_shape(text.take(q));
    crate::text::lemma_trim_end_shape(text.take(c));
    if a.len() > b.len() {
        let i = a.len() - 1;
        assert(a[i] == text.take(q)[i]);
        assert(text.take(c).skip(b.len() as int)[i - b.len()] == text[i]);
        assert(crate::text::is_ws(text.take(c).skip(b.len() as int)[i - b.len()]));
    }
    assert forall|i: int| 0 <= i < a.len() implies a[i] == b[i] by {
        assert(a[i] == text.take(q)[i]);
        assert(b[i] == text.take(c)[i]);
    }
}

/// A subtitle credit never costs the speech before it. When a credit phrase
/// occurs (case-insensitively) at `q`, no credit phrase occurs earlier, and
/// no sentence boundary (`.`, `!`, `?`, newline) comes before `q`, all the
/// text before `q` survives, up to its trailing whitespace; and when that is
/// the phrase's last occurrence, the result is exactly the text before `q`
/// with trailing whitespace dropped.
pub proof fn law_attribution_keeps_speech_before_trigger(text: Seq<char>, k: int, q: int)
    requires
        0 <= k < attribution_triggers().len(),
        occurs_at(ascii_lower_str(text), attribution_triggers()[k], q),
        no_boundary_before(text, q),
        no_trigger_before(text, q),
    ensures
        trim_end(text.take(q)).is_prefix_of(attribution_stripped(text)),
        (forall|i: int| q < i ==> !occurs_at(ascii_lower_str(text), attribution_triggers()[k], i))
            ==> attribution_stripped(text) == trim_end(text.take(q)),
{
    let trigs = attribution_triggers();
    let h = ascii_lower_str(text);
    let t = trigs[k];
    let n = trigs.len() as int;
    lemma_last_occurrence_at_least(h, t, q, h.len() - t.len());
    let p = last_occurrence(h, t);
    lemma_last_occurrence_bound(h, t, h.len() - t.len());
    assert(occurs_at(h, t, p));
    assert(h.len() == text.len());
    lemma_last_boundary_bound(text, p);
    lemma_last_boundary_is_boundary(text, p);
    let j = last_boundary_before(text, p);
    let ck = if j >= 0 {
        j + 1
    } else {
        p
    };
    assert(trigger_cut(text, t) == Some(ck));
    lemma_earliest_cut_at_most(text, trigs, n, k, ck);
    lemma_earliest_cut_after(text, q, n);
    lemma_earliest_cut_bound(text, trigs, n);
    let c = earliest_cut(text, trigs, n)->0;
    lemma_trim_end_take_grows(text, q, c);
    if forall|i: int| q < i ==> !occurs_at(h, t, i) {
        assert(p == q);
        if j >= 0 {
            assert(!is_boundary_char(text[j]));
        }
        assert(c == q);
    }
}

proof fn lemma_last_boundary_at_least(t: Seq<char>, p: int, x: int)
    requires
        0 <= x < p <= t.len(),
        is_boundary_char(t[x]),
    ensures
        last_boundary_before(t, p) >= x,
        (forall|y: int| x < y < p ==> !is_boundary_char(#[trigger] t[y])) ==> last_boundary_before(t, p) == x,
    decreases p,
{
    if p - 1 > x && !is_boundary_char(t[p - 1]) {
        lemma_last_boundary_at_least(t, p - 1, x);
    }
}

proof fn lemma_cut_after_boundary(text: Seq<char>, q: int, s: int, m: int)
    requires
        0 <= m < attribution_triggers().len(),
        1 <= s <= q,
        is_boundary_char(text[s - 1]),
        no_trigger_before(text, q),
    ensures
        trigger_cut(text, attribution_triggers()[m]) matches Some(c) ==> c >= s,
{
    let t = attribution_triggers()[m];
    let h = ascii_lower_str(text);
    let p = last_occurrence(h, t);
    if p >= 0 {
        lemma_last_occurrence_bound(h, t, h.len() - t.len());
        assert(occurs_at(h, t, p));
        assert(p >= q);
        lemma_last_boundary_at_least(text, p, s - 1);
    }
}

proof fn lemma_earliest_cut_after_boundary(text: Seq<char>, q: int, s: int, k: int)
    requires
        0 <= k <= attribution_triggers().len(),
        1 <= s <= q,
        is_boundary_char(text[s - 1]),
        no_trigger_before(text, q),
    ensures
        earliest_cut(text, attribution_triggers(), k) matches Some(c) ==> c >= s,
    decreases k,
{
    if k > 0 {
        lemma_earliest_cut_after_boundary(text, q, s, k - 1);
        lemma_cut_after_boundary(text, q, s, k - 1);
    }
}

/// A subtitle credit takes its whole sentence, and only that. When a credit
/// phrase occurs (case-insensitively) at `q`, no credit phrase occurs
/// earlier, and the last sentence boundary before `q` is at `s - 1`, all the
/// text up to and including that boundary survives (up to trailing
/// whitespace); and when that is the phrase's last occurrence, the result is
/// exactly that text with trailing whitespace dropped.
pub proof fn law_attribution_cuts_at_sentence_start(text: Seq<char>, k: int, q: int, s: int)
    requires
        0 <= k < attribution_triggers().len(),
        occurs_at(ascii_lower_str(text), attribution_triggers()[k], q),
        1 <= s <= q,
        is_boundary_char(text[s - 1]),
        forall|y: int| s <= y < q ==> !is_boundary_char(#[trigger] text[y]),
        no_trigger_before(text, q),
    ensures
        trim_end(text.take(s)).is_prefix_of(attribution_stripped(text)),
        (forall|i: int| q < i ==> !occurs_at(ascii_lower_str(text), attribution_triggers()[k], i))
            ==> attribution_stripped(text) == trim_end(text.take(s)),
{
    let trigs = attribution_triggers();
    let h = ascii_lower_str(text);
    let t = trigs[k];
    let n = trigs.len() as int;
    lemma_last_occurrence_at_least(h, t, q, h.len() - t.len());
    let p = last_occurrence(h, t);
    lemma_last_occurrence_bound(h, t, h.len() - t.len());
    assert(occurs_at(h, t, p));
    assert(h.len() == text.len());
    lemma_last_boundary_at_least(text, p, s - 1);
    let j = last_boundary_before(text, p);
    assert(trigger_cut(text, t) == Some(j + 1));
    lemma_earliest_cut_at_most(text, trigs, n, k, j + 1);
    lemma_earliest_cut_after_boundary(text, q, s, n);
    lemma_earliest_cut_bound(text, trigs, n);
    let c = earliest_cut(text, trigs, n)->0;
    lemma_trim_end_take_grows(text, s, c);
    if forall|i: int| q < i ==> !occurs_at(h, t, i) {
        assert(p == q);
        assert(j == s - 1);
        assert(c == s);
    }
}

} // verus!
