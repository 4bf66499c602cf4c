//! Building the labelled transcript of a recording: dropping mic chunks that
//! echo the system stream, ordering chunks, splitting them into labelled
//! pieces, cleaning speaker boundaries and rendering `Label: text` lines.
use vstd::prelude::*;
use crate::types::{ChunkRecord, ChunkSource, LabelledPiece};
use crate::labels::{chrono_indices, chrono_order, chunk_key};
use crate::labels::{first_occ, lemma_first_occ_no_dups, sat_add, sat_sub, seqs_of_strings};
use crate::labels::{opt_chars, piece_view, piece_views, PieceView};
use crate::merge::{merge_run_on, merge_run_on_chars};
use crate::pieces::{
    absorb_all, absorb_text_continuation_chains, bridge_all, bridge_short_interjections,
};
use crate::text::{
    char_is_alphanumeric, chars_eq, chars_of, extend_chars, is_alphanumeric, lowercase_str,
    slice_sub, str_lowercase, string_of, trim, trim_chars, utf8_len, utf8_len_at_most,
};

verus! {

// ---------------------------------------------------------------------------
// Tokens
// ---------------------------------------------------------------------------

/// Length of the run of alphanumeric characters that opens `s`.
pub open spec fn alnum_run(s: Seq<char>) -> nat
    decreases s.len(),
{
    if s.len() == 0 || !char_is_alphanumeric(s[0]) {
        0
    } else {
        1 + alnum_run(s.drop_first())
    }
}

pub proof fn lemma_alnum_run(s: Seq<char>, k: int)
    requires
        0 <= k <= s.len(),
        forall|j: int| 0 <= j < k ==> char_is_alphanumeric(s[j]),
        k == s.len() || !char_is_alphanumeric(s[k]),
    ensures
        alnum_run(s) == k,
    decreases k,
{
    if k > 0 {
        lemma_alnum_run(s.drop_first(), k - 1);
    }
}

pub proof fn lemma_alnum_run_bound(s: Seq<char>)
    ensures
        alnum_run(s) <= s.len(),
        s.len() > 0 && char_is_alphanumeric(s[0]) ==> alnum_run(s) >= 1,
    decreases s.len(),
{
    if s.len() > 0 && char_is_alphanumeric(s[0]) {
        lemma_alnum_run_bound(s.drop_first());
    }
}

/// The pieces of `s` between non-alphanumeric characters that take more
/// than one byte in UTF-8, in order.
pub open spec fn alnum_tokens(s: Seq<char>) -> Seq<Seq<char>>
    decreases s.len(),
{
    if s.len() == 0 {
        seq![]
    } else if !char_is_alphanumeric(s[0]) {
        alnum_tokens(s.drop_first())
    } else {
        proof {
            lemma_alnum_run_bound(s);
        }
        let w = s.take(alnum_run(s) as int);
        (if utf8_len(w) > 1 {
            seq![w]
        } else {
            seq![]
        }) + alnum_tokens(s.skip(alnum_run(s) as int))
    }
}

/// The comparison tokens of a text: lowercased, split on every
/// non-alphanumeric character, pieces of one byte or less dropped.
pub open spec fn tokens_of(s: Seq<char>) -> Seq<Seq<char>> {
    alnum_tokens(str_lowercase(s))
}

/// Lowercase, split on non-alphanumeric characters, drop tokens shorter than
/// two bytes.
pub fn normalize_tokens(s: &str) -> (r: Vec<String>)
    ensures
        seqs_of_strings(r@) == tokens_of(s@),
{
    let low = lowercase_str(s);
    let v = chars_of(low.as_str());
    let mut out: Vec<String> = Vec::new();
    let mut i: usize = 0;
    assert(v@.skip(0) =~= v@);
    while i < v.len()
        invariant
            i <= v.len(),
            v@ == str_lowercase(s@),
            alnum_tokens(v@) == seqs_of_strings(out@) + alnum_tokens(v@.skip(i as int)),
        decreases v.len() - i,
    {
        let ghost rest = v@.skip(i as int);
        if !is_alphanumeric(v[i]) {
            assert(rest.drop_first() =~= v@.skip(i + 1));
            i += 1;
        } else {
            let mut j = i;
            while j < v.len() && is_alphanumeric(v[j])
                invariant
                    i <= j <= v.len(),
                    forall|t: int| i <= t < j ==> char_is_alphanumeric(v@[t]),
                decreases v.len() - j,
            {
                j += 1;
            }
            let w = slice_sub(&v, i, j);
            proof {
                lemma_alnum_run(rest, j - i);
                assert(rest.take(j - i) =~= w@);
                assert(rest.skip(j - i) =~= v@.skip(j as int));
            }
            let ghost before = seqs_of_strings(out@);
            if !utf8_len_at_most(&w, 1) {
                out.push(string_of(&w));
                assert(seqs_of_strings(out@) =~= before.push(w@));
                assert(before + alnum_tokens(rest) =~= seqs_of_strings(out@) + alnum_tokens(
                    v@.skip(j as int),
                ));
            } else {
                assert(before + alnum_tokens(rest) =~= seqs_of_strings(out@) + alnum_tokens(
                    v@.skip(j as int),
                ));
            }
            i = j;
        }
    }
    assert(v@.skip(i as int) =~= Seq::<char>::empty());
    assert(seqs_of_strings(out@) + Seq::<Seq<char>>::empty() =~= seqs_of_strings(out@));
    out
}

/// How many of the distinct tokens of `ds` occur in `b`.
pub open spec fn shared_count(ds: Seq<Seq<char>>, b: Seq<Seq<char>>) -> nat
    decreases ds.len(),
{
    if ds.len() == 0 {
        0
    } else {
        shared_count(ds.drop_last(), b) + if b.contains(ds.last()) {
            1nat
        } else {
            0nat
        }
    }
}

/// The containment coefficient of two token lists as a fraction
/// `(shared, smaller)`: distinct tokens the two have in common over the
/// number of distinct tokens in the smaller one; `(0, 0)` when either list
/// is empty.
pub open spec fn containment(a: Seq<Seq<char>>, b: Seq<Seq<char>>) -> (nat, nat) {
    if a.len() == 0 || b.len() == 0 {
        (0, 0)
    } else {
        let da = first_occ(a);
        let db = first_occ(b);
        (shared_count(da, b), if da.len() <= db.len() {
            da.len()
        } else {
            db.len()
        })
    }
}

/// The distinct elements of `v`, in first-occurrence order.
fn distinct_tokens(v: &Vec<String>) -> (r: Vec<Vec<char>>)
    ensures
        crate::text::seqs(r@) == first_occ(seqs_of_strings(v@)),
{
    let mut r: Vec<Vec<char>> = Vec::new();
    let mut i: usize = 0;
    while i < v.len()
        invariant
            i <= v.len(),
            crate::text::seqs(r@) == first_occ(seqs_of_strings(v@).take(i as int)),
        decreases v.len() - i,
    {
        let ghost sv = seqs_of_strings(v@);
        let ghost before = crate::text::seqs(r@);
        assert(sv.take(i + 1).drop_last() =~= sv.take(i as int));
        assert(sv.take(i + 1).last() == v@[i as int]@);
        let w = chars_of(v[i].as_str());
        if !holds_chars(&r, &w) {
            r.push(w);
            assert(crate::text::seqs(r@) =~= before.push(w@));
        }
        i += 1;
    }
    assert(seqs_of_strings(v@).take(v.len() as int) =~= seqs_of_strings(v@));
    r
}

/// Whether `ws` holds `w`.
fn holds_chars(ws: &Vec<Vec<char>>, w: &Vec<char>) -> (b: bool)
    ensures
        b == crate::text::seqs(ws@).contains(w@),
{
    let mut i: usize = 0;
    while i < ws.len()
        invariant
            i <= ws.len(),
            forall|j: int| 0 <= j < i ==> ws@[j]@ != w@,
        decreases ws.len() - i,
    {
        if chars_eq(&ws[i], w) {
            assert(crate::text::seqs(ws@)[i as int] == w@);
            return true;
        }
        i += 1;
    }
    assert forall|j: int| 0 <= j < ws.len() implies crate::text::seqs(ws@)[j] != w@ by {}
    false
}

/// Whether the token list `b` holds `w`.
fn holds_token(b: &Vec<String>, w: &Vec<char>) -> (r: bool)
    ensures
        r == seqs_of_strings(b@).contains(w@),
{
    let mut i: usize = 0;
    while i < b.len()
        invariant
            i <= b.len(),
            forall|j: int| 0 <= j < i ==> b@[j]@ != w@,
        decreases b.len() - i,
    {
        let c = chars_of(b[i].as_str());
        if chars_eq(&c, w) {
            assert(seqs_of_strings(b@)[i as int] == w@);
            return true;
        }
        i += 1;
    }
    assert forall|j: int| 0 <= j < b.len() implies seqs_of_strings(b@)[j] != w@ by {}
    false
}

/// The containment coefficient of `a` in `b` as the fraction
/// `(shared, smaller)`: distinct tokens in common over the distinct-token
/// count of the smaller list (a fraction rather than a float, so that
/// thresholds compare exactly).
pub fn token_containment(a: &Vec<String>, b: &Vec<String>) -> (r: (usize, usize))
    ensures
        r.0 == containment(seqs_of_strings(a@), seqs_of_strings(b@)).0,
        r.1 == containment(seqs_of_strings(a@), seqs_of_strings(b@)).1,
        r.0 <= r.1,
{
    if a.len() == 0 || b.len() == 0 {
        return (0, 0);
    }
    let da = distinct_tokens(a);
    let db = distinct_tokens(b);
    let ghost sa = crate::text::seqs(da@);
    let mut shared: usize = 0;
    let mut i: usize = 0;
    while i < da.len()
        invariant
            i <= da.len(),
            sa == crate::text::seqs(da@),
            shared == shared_count(sa.take(i as int), seqs_of_strings(b@)),
            shared <= i,
        decreases da.len() - i,
    {
        assert(sa.take(i + 1).drop_last() =~= sa.take(i as int));
        assert(sa.take(i + 1).last() == da@[i as int]@);
        if holds_token(b, &da[i]) {
            shared = shared + 1;
        }
        i += 1;
    }
    assert(sa.take(da.len() as int) =~= sa);
    proof {
        lemma_first_occ_no_dups(seqs_of_strings(a@));
        lemma_first_occ_no_dups(seqs_of_strings(b@));
        lemma_shared_bound(
            sa,
            seqs_of_strings(b@),
            first_occ(seqs_of_strings(b@)),
            Set::empty(),
        );
    }
    let smaller = if da.len() <= db.len() {
        da.len()
    } else {
        db.len()
    };
    (shared, smaller)
}

/// The Jaccard coefficient of two token lists as a fraction `(shared,
/// union)`: distinct tokens in common over distinct tokens in either; `(0,
/// 0)` when either list is empty.
pub open spec fn jaccard(a: Seq<Seq<char>>, b: Seq<Seq<char>>) -> (nat, nat) {
    if a.len() == 0 || b.len() == 0 {
        (0, 0)
    } else {
        let da = first_occ(a);
        let db = first_occ(b);
        let s = shared_count(da, b);
        (s, (da.len() + db.len() - s) as nat)
    }
}

/// The Jaccard coefficient of `a` and `b` as the fraction `(shared, union)`
/// (a fraction rather than a float, so that thresholds compare exactly; the
/// union is counted in a `u128`).
pub fn token_jaccard(a: &Vec<String>, b: &Vec<String>) -> (r: (usize, u128))
    ensures
        r.0 == jaccard(seqs_of_strings(a@), seqs_of_strings(b@)).0,
        r.1 == jaccard(seqs_of_strings(a@), seqs_of_strings(b@)).1,
        r.0 <= r.1,
        r.1 <= 2 * usize::MAX,
{
    if a.len() == 0 || b.len() == 0 {
        return (0, 0);
    }
    let da = distinct_tokens(a);
    let db = distinct_tokens(b);
    let ghost sa = crate::text::seqs(da@);
    let mut shared: usize = 0;
    let mut i: usize = 0;
    while i < da.len()
        invariant
            i <= da.len(),
            sa == crate::text::seqs(da@),
            shared == shared_count(sa.take(i as int), seqs_of_strings(b@)),
            shared <= i,
        decreases da.len() - i,
    {
        assert(sa.take(i + 1).drop_last() =~= sa.take(i as int));
        assert(sa.take(i + 1).last() == da@[i as int]@);
        if holds_token(b, &da[i]) {
            shared = shared + 1;
        }
        i += 1;
    }
    assert(sa.take(da.len() as int) =~= sa);
    proof {
        lemma_first_occ_no_dups(seqs_of_strings(a@));
        lemma_first_occ_no_dups(seqs_of_strings(b@));
        lemma_shared_bound(
            sa,
            seqs_of_strings(b@),
            first_occ(seqs_of_strings(b@)),
            Set::empty(),
        );
    }
    let union: u128 = da.len() as u128 + (db.len() - shared) as u128;
    (shared, union)
}

/// Distinct tokens of `ds` found in `b`, none of them in `ex`, are at most
/// the distinct tokens of `b` outside `ex`.
proof fn lemma_shared_bound(
    ds: Seq<Seq<char>>,
    b: Seq<Seq<char>>,
    db: Seq<Seq<char>>,
    ex: Set<Seq<char>>,
)
    requires
        ds.no_duplicates(),
        db.no_duplicates(),
        forall|x: Seq<char>| #[trigger] db.contains(x) <==> (b.contains(x) && !ex.contains(x)),
        forall|i: int| 0 <= i < ds.len() ==> !ex.contains(#[trigger] ds[i]),
    ensures
        shared_count(ds, b) <= db.len(),
        shared_count(ds, b) <= ds.len(),
    decreases ds.len(),
{
    if ds.len() > 0 {
        let m = ds.last();
        let rest = ds.drop_last();
        assert(ds[ds.len() - 1] == m);
        assert forall|i: int, j: int| 0 <= i < rest.len() && 0 <= j < rest.len() && i != j implies rest[i]
            != rest[j] by {
            assert(rest[i] == ds[i] && rest[j] == ds[j]);
        }
        assert forall|i: int| 0 <= i < rest.len() implies !ex.contains(#[trigger] rest[i]) by {
            assert(rest[i] == ds[i]);
        }
        if b.contains(m) {
            assert(db.contains(m));
            let k = choose|k: int| 0 <= k < db.len() && db[k] == m;
            let db2 = db.remove(k);
            let ex2 = ex.insert(m);
            assert forall|i: int, j: int| 0 <= i < db2.len() && 0 <= j < db2.len() && i != j implies db2[i]
                != db2[j] by {
                let ii = if i < k { i } else { i + 1 };
                let jj = if j < k { j } else { j + 1 };
                assert(db2[i] == db[ii] && db2[j] == db[jj]);
            }
            assert forall|x: Seq<char>| #[trigger] db2.contains(x) <==> (b.contains(x) && !ex2.contains(x)) by {
                if db2.contains(x) {
                    let i = choose|i: int| 0 <= i < db2.len() && db2[i] == x;
                    let ii = if i < k { i } else { i + 1 };
                    assert(db[ii] == x);
                    assert(db.contains(x));
                    assert(ii != k);
                }
                if b.contains(x) && !ex2.contains(x) {
                    assert(db.contains(x));
                    let i = choose|i: int| 0 <= i < db.len() && db[i] == x;
                    assert(i != k);
                    if i < k {
                        assert(db2[i] == x);
                    } else {
                        assert(db2[i - 1] == x);
                    }
                }
            }
            assert forall|i: int| 0 <= i < rest.len() implies !ex2.contains(#[trigger] rest[i]) by {
                assert(rest[i] == ds[i]);
                assert(ds[i] != ds[ds.len() - 1]);
            }
            lemma_shared_bound(rest, b, db2, ex2);
        } else {
            lemma_shared_bound(rest, b, db, ex);
        }
    }
}

// ---------------------------------------------------------------------------
// Cross-stream echo
// ---------------------------------------------------------------------------

/// How far before a mic chunk's start a system chunk may start and still be
/// compared with it.
pub const ECHO_PRE_MS: u64 = 5000;

/// How far after a mic chunk's start a system chunk may start and still be
/// compared with it.
pub const ECHO_POST_MS: u64 = 15000;

/// Mic chunks with fewer tokens than this are never treated as echoes.
pub const MIN_MIC_TOKENS: usize = 3;

/// Some chunk came from the system stream.
pub open spec fn has_sys(chunks: Seq<ChunkRecord>) -> bool {
    exists|i: int| 0 <= i < chunks.len() && (#[trigger] chunks[i]).source == ChunkSource::Sys
}

/// The texts of the system chunks starting within `[lower, upper]`, in
/// input order, joined by single spaces (a text adds no space while the
/// window is still empty).
pub open spec fn window_text(chunks: Seq<ChunkRecord>, lower: u64, upper: u64) -> Seq<char>
    decreases chunks.len(),
{
    if chunks.len() == 0 {
        seq![]
    } else {
        let acc = window_text(chunks.drop_last(), lower, upper);
        let c = chunks.last();
        if c.source == ChunkSource::Sys && lower <= c.start_ms && c.start_ms <= upper {
            if acc.len() == 0 {
                c.text@
            } else {
                acc + seq![' '] + c.text@
            }
        } else {
            acc
        }
    }
}

/// Mic chunk `c` echoes the system stream: it has at least `MIN_MIC_TOKENS`
/// tokens, the system text near it is not empty, and at least 3/5 of the
/// distinct tokens of the smaller side are shared.
pub open spec fn is_echo(chunks: Seq<ChunkRecord>, c: ChunkRecord) -> bool {
    let mt = tokens_of(c.text@);
    let w = window_text(chunks, sat_sub(c.start_ms, 5000), sat_add(c.start_ms, 15000));
    let sim = containment(mt, tokens_of(w));
    mt.len() >= 3 && w.len() > 0 && sim.1 > 0 && 5 * sim.0 >= 3 * sim.1
}

/// Chunk `i` survives echo removal.
pub open spec fn keeps_chunk(chunks: Seq<ChunkRecord>, i: int) -> bool {
    !has_sys(chunks) || chunks[i].source != ChunkSource::Mic || !is_echo(chunks, chunks[i])
}

/// Indices `< n` of the chunks that survive echo removal, in order.
pub open spec fn kept_upto(chunks: Seq<ChunkRecord>, n: int) -> Seq<int>
    decreases n,
{
    if n <= 0 {
        seq![]
    } else {
        kept_upto(chunks, n - 1) + if keeps_chunk(chunks, n - 1) {
            seq![n - 1]
        } else {
            seq![]
        }
    }
}

/// Indices of the chunks that survive echo removal, in order.
pub open spec fn kept_indices(chunks: Seq<ChunkRecord>) -> Seq<int> {
    kept_upto(chunks, chunks.len() as int)
}

pub proof fn lemma_kept_upto(chunks: Seq<ChunkRecord>, n: int)
    requires
        0 <= n <= chunks.len(),
    ensures
        kept_upto(chunks, n).len() <= n,
        forall|j: int|
            0 <= j < kept_upto(chunks, n).len() ==> 0 <= #[trigger] kept_upto(chunks, n)[j] < n,
        forall|j: int, k: int|
            0 <= j < k < kept_upto(chunks, n).len() ==> kept_upto(chunks, n)[j] < kept_upto(
                chunks,
                n,
            )[k],
    decreases n,
{
    if n > 0 {
        lemma_kept_upto(chunks, n - 1);
    }
}

fn has_sys_exec(chunks: &[ChunkRecord]) -> (b: bool)
    ensures
        b == has_sys(chunks@),
{
    let mut i: usize = 0;
    while i < chunks.len()
        invariant
            i <= chunks.len(),
            forall|j: int| 0 <= j < i ==> chunks@[j].source != ChunkSource::Sys,
        decreases chunks.len() - i,
    {
        if chunks[i].source == ChunkSource::Sys {
            return true;
        }
        i += 1;
    }
    false
}

fn window_text_exec(chunks: &[ChunkRecord], lower: u64, upper: u64) -> (r: Vec<char>)
    ensures
        r@ == window_text(chunks@, lower, upper),
{
    let mut r: Vec<char> = Vec::new();
    let mut i: usize = 0;
    while i < chunks.len()
        invariant
            i <= chunks.len(),
            r@ == window_text(chunks@.take(i as int), lower, upper),
        decreases chunks.len() - i,
    {
        assert(chunks@.take(i + 1).drop_last() =~= chunks@.take(i as int));
        let c = &chunks[i];
        if c.source == ChunkSource::Sys && lower <= c.start_ms && c.start_ms <= upper {
            if r.len() > 0 {
                r.push(' ');
            }
            let t = chars_of(c.text.as_str());
            extend_chars(&mut r, &t);
        }
        i += 1;
    }
    assert(chunks@.take(chunks.len() as int) =~= chunks@);
    r
}

fn is_echo_exec(chunks: &[ChunkRecord], c: &ChunkRecord) -> (b: bool)
    ensures
        b == is_echo(chunks@, *c),
{
    let mt = normalize_tokens(c.text.as_str());
    if mt.len() < MIN_MIC_TOKENS {
        return false;
    }
    let lower = c.start_ms.saturating_sub(ECHO_PRE_MS);
    let upper = c.start_ms.saturating_add(ECHO_POST_MS);
    let w = window_text_exec(chunks, lower, upper);
    if w.len() == 0 {
        return false;
    }
    let ws = string_of(&w);
    let wt = normalize_tokens(ws.as_str());
    let (shared, smaller) = token_containment(&mt, &wt);
    smaller > 0 && (shared as u128) * 5 >= (smaller as u128) * 3
}

/// Drop mic chunks that echo the system stream (a meeting played through the
/// speakers and picked up again by the mic). Nothing changes when no chunk
/// came from the system stream; system chunks are always kept; a mic chunk
/// is dropped when it has at least `MIN_MIC_TOKENS` tokens and at least 3/5
/// of the distinct tokens of the smaller side are shared with the system
/// text starting from `ECHO_PRE_MS` before to `ECHO_POST_MS` after it.
pub fn dedup_mic_against_sys(chunks: &[ChunkRecord]) -> (r: Vec<ChunkRecord>)
    ensures
        r.len() == kept_indices(chunks@).len(),
        forall|j: int|
            0 <= j < r.len() ==> (#[trigger] r@[j]).same(chunks@[kept_indices(chunks@)[j]]),
{
    let any_sys = has_sys_exec(chunks);
    let mut r: Vec<ChunkRecord> = Vec::new();
    let mut i: usize = 0;
    while i < chunks.len()
        invariant
            i <= chunks.len(),
            any_sys == has_sys(chunks@),
            r.len() == kept_upto(chunks@, i as int).len(),
            forall|j: int|
                0 <= j < r.len() ==> (#[trigger] r@[j]).same(chunks@[kept_upto(chunks@, i as int)[j]]),
        decreases chunks.len() - i,
    {
        let keep = !any_sys || chunks[i].source != ChunkSource::Mic || !is_echo_exec(
            chunks,
            &chunks[i],
        );
        assert(keep == keeps_chunk(chunks@, i as int));
        if keep {
            r.push(chunks[i].copy());
        }
        assert forall|j: int| 0 <= j < r.len() implies (#[trigger] r@[j]).same(
            chunks@[kept_upto(chunks@, i + 1)[j]],
        ) by {
            if j < kept_upto(chunks@, i as int).len() {
                assert(kept_upto(chunks@, i + 1)[j] == kept_upto(chunks@, i as int)[j]);
            }
        }
        i += 1;
    }
    r
}

// ---------------------------------------------------------------------------
// Rendering
// ---------------------------------------------------------------------------

/// One piece appended to the transcript built so far (`st.0`), where `st.1`
/// is the label of the line being written. Blank pieces add nothing; a
/// labelled piece opens a new `Label: ` line when its label differs from the
/// current one and otherwise continues it after a space; an unlabelled
/// piece continues whatever came before after a space.
pub open spec fn render_step(st: (Seq<char>, Option<Seq<char>>), p: PieceView) -> (
    Seq<char>,
    Option<Seq<char>>,
) {
    let t = trim(p.text);
    if t.len() == 0 {
        st
    } else {
        match p.label {
            Some(l) => if st.1 != Some(l) {
                (
                    (if st.0.len() > 0 {
                        st.0.push('\n')
                    } else {
                        st.0
                    }) + l + seq![':', ' '] + t,
                    Some(l),
                )
            } else {
                (st.0.push(' ') + t, st.1)
            },
            None => ((if st.0.len() > 0 {
                st.0.push(' ')
            } else {
                st.0
            }) + t, st.1),
        }
    }
}

/// The transcript state after the first `n` pieces.
pub open spec fn render_upto(ps: Seq<PieceView>, n: int) -> (Seq<char>, Option<Seq<char>>)
    decreases n,
{
    if n <= 0 {
        (seq![], None)
    } else {
        render_step(render_upto(ps, n - 1), ps[n - 1])
    }
}

/// The pieces rendered as `Label: text` lines.
pub open spec fn rendered(ps: Seq<PieceView>) -> Seq<char> {
    render_upto(ps, ps.len() as int).0
}

/// The finished transcript of a piece sequence: short interjections bridged,
/// continuation chains collapsed, lines rendered, run-on sentences merged.
pub open spec fn transcript_of(ps: Seq<PieceView>) -> Seq<char> {
    merge_run_on(rendered(absorb_all(bridge_all(ps))))
}

fn render_lines(pieces: &Vec<LabelledPiece>) -> (r: Vec<char>)
    ensures
        r@ == rendered(piece_views(pieces@)),
{
    let ghost ps = piece_views(pieces@);
    let mut out: Vec<char> = Vec::new();
    let mut last: Option<String> = None;
    let mut i: usize = 0;
    while i < pieces.len()
        invariant
            i <= pieces.len(),
            ps == piece_views(pieces@),
            (out@, opt_chars(last)) == render_upto(ps, i as int),
        decreases pieces.len() - i,
    {
        assert(ps[i as int] == piece_view(pieces@[i as int]));
        let tv = chars_of(pieces[i].text.as_str());
        let t = trim_chars(&tv);
        if t.len() > 0 {
            match &pieces[i].label {
                Some(l) => {
                    let lv = chars_of(l.as_str());
                    let same = match &last {
                        Some(m) => {
                            let mv = chars_of(m.as_str());
                            chars_eq(&mv, &lv)
                        },
                        None => false,
                    };
                    if !same {
                        if out.len() > 0 {
                            out.push('\n');
                        }
                        extend_chars(&mut out, &lv);
                        out.push(':');
                        out.push(' ');
                        last = Some(l.clone());
                    } else {
                        out.push(' ');
                    }
                },
                None => {
                    if out.len() > 0 {
                        out.push(' ');
                    }
                },
            }
            extend_chars(&mut out, &t);
        }
        i += 1;
    }
    out
}

/// The transcript of a piece sequence: short interjections are bridged,
/// continuation chains collapsed, each run of one label rendered as one
/// `Label: text` line (unlabelled pieces continue the line before them,
/// blank pieces are skipped), and run-on sentences merged across lines.
pub fn transcript_from_pieces(pieces: Vec<LabelledPiece>) -> (r: String)
    ensures
        r@ == transcript_of(piece_views(pieces@)),
{
    let mut ps = pieces;
    bridge_short_interjections(&mut ps);
    absorb_text_continuation_chains(&mut ps);
    let lines = render_lines(&ps);
    let merged = merge_run_on_chars(&lines);
    string_of(&merged)
}

// ---------------------------------------------------------------------------
// The pipeline
// ---------------------------------------------------------------------------

/// The chunks that survive echo removal, in input order.
pub open spec fn kept_chunks(chunks: Seq<ChunkRecord>) -> Seq<ChunkRecord> {
    kept_indices(chunks).map_values(|i: int| chunks[i])
}

/// Indices into `chunks` of the chunks handed to the splitter, in the order
/// they are handed over: the survivors of echo removal in `(start_ms,
/// source)` order, mic first on a tie, input order among equals.
pub open spec fn chunk_order(chunks: Seq<ChunkRecord>) -> Seq<int> {
    chrono_order(kept_chunks(chunks)).map_values(|k: usize| kept_indices(chunks)[k as int])
}

/// `handed` are the chunks `chunk_order` names, field for field.
pub open spec fn handed_in_order(chunks: Seq<ChunkRecord>, handed: Seq<ChunkRecord>) -> bool {
    &&& handed.len() == chunk_order(chunks).len()
    &&& forall|j: int|
        0 <= j < handed.len() ==> (#[trigger] handed[j]).same(chunks[chunk_order(chunks)[j]])
}

/// `outs[j]` is something `split_chunk` may return for `handed[j]`.
pub open spec fn split_results<F: Fn(&ChunkRecord) -> Vec<LabelledPiece>>(
    split_chunk: F,
    handed: Seq<ChunkRecord>,
    outs: Seq<Vec<LabelledPiece>>,
) -> bool {
    &&& outs.len() == handed.len()
    &&& forall|j: int| 0 <= j < outs.len() ==> call_ensures(split_chunk, (&handed[j],), #[trigger] outs[j])
}

/// The pieces of `ps` whose text is not blank, in order.
pub open spec fn nonblank(ps: Seq<PieceView>) -> Seq<PieceView>
    decreases ps.len(),
{
    if ps.len() == 0 {
        seq![]
    } else {
        nonblank(ps.drop_last()) + if trim(ps.last().text).len() > 0 {
            seq![ps.last()]
        } else {
            seq![]
        }
    }
}

/// The non-blank pieces of all splitter results, concatenated in order.
pub open spec fn nonblank_pieces(outs: Seq<Vec<LabelledPiece>>) -> Seq<PieceView>
    decreases outs.len(),
{
    if outs.len() == 0 {
        seq![]
    } else {
        nonblank_pieces(outs.drop_last()) + nonblank(piece_views(outs.last()@))
    }
}

pub(crate) proof fn lemma_chunk_order(chunks: Seq<ChunkRecord>, kept: Seq<ChunkRecord>)
    requires
        kept.len() == kept_indices(chunks).len(),
        forall|j: int| 0 <= j < kept.len() ==> (#[trigger] kept[j]).same(chunks[kept_indices(chunks)[j]]),
    ensures
        chrono_order(kept) == chrono_order(kept_chunks(chunks)),
{
    let a = kept.map_values(|c: ChunkRecord| chunk_key(c));
    let b = kept_chunks(chunks).map_values(|c: ChunkRecord| chunk_key(c));
    assert forall|j: int| 0 <= j < a.len() implies a[j] == b[j] by {
        assert(kept[j].same(chunks[kept_indices(chunks)[j]]));
    }
    assert(a =~= b);
}

/// The labelled pieces of a recording before any speaker-boundary clean-up:
/// echo-removed chunks in chronological order, each handed to `split_chunk`,
/// the non-blank pieces of every result concatenated.
pub fn build_pieces_unbridged<F: Fn(&ChunkRecord) -> Vec<LabelledPiece>>(
    chunks: &[ChunkRecord],
    split_chunk: &F,
) -> (r: Vec<LabelledPiece>)
    requires
        forall|c: ChunkRecord| call_requires(*split_chunk, (&c,)),
    ensures
        exists|handed: Seq<ChunkRecord>, outs: Seq<Vec<LabelledPiece>>|
            #![trigger handed_in_order(chunks@, handed), split_results(*split_chunk, handed, outs)]
            handed_in_order(chunks@, handed) && split_results(*split_chunk, handed, outs)
                && piece_views(r@) == nonblank_pieces(outs),
{
    let kept = dedup_mic_against_sys(chunks);
    let order = chrono_indices(kept.as_slice());
    proof {
        lemma_chunk_order(chunks@, kept@);
        lemma_kept_upto(chunks@, chunks@.len() as int);
    }
    let ghost ord = chunk_order(chunks@);
    let mut all: Vec<LabelledPiece> = Vec::new();
    let ghost mut handed: Seq<ChunkRecord> = seq![];
    let ghost mut outs: Seq<Vec<LabelledPiece>> = seq![];
    let mut k: usize = 0;
    while k < order.len()
        invariant
            k <= order.len(),
            order.len() == kept.len(),
            order@ == chrono_order(kept@),
            forall|j: int| 0 <= j < order.len() ==> (#[trigger] order@[j]) < kept.len(),
            kept.len() == kept_indices(chunks@).len(),
            forall|j: int|
                0 <= j < kept.len() ==> (#[trigger] kept@[j]).same(chunks@[kept_indices(chunks@)[j]]),
            chrono_order(kept@) == chrono_order(kept_chunks(chunks@)),
            ord == chunk_order(chunks@),
            ord.len() == order.len(),
            forall|c: ChunkRecord| call_requires(*split_chunk, (&c,)),
            handed.len() == k,
            forall|j: int| 0 <= j < k ==> (#[trigger] handed[j]).same(chunks@[ord[j]]),
            split_results(*split_chunk, handed, outs),
            piece_views(all@) == nonblank_pieces(outs),
        decreases order.len() - k,
    {
        let c = &kept[order[k]];
        let out = split_chunk(c);
        let ghost prev_outs = outs;
        proof {
            assert(ord[k as int] == kept_indices(chunks@)[order@[k as int] as int]);
            assert(kept@[order@[k as int] as int].same(chunks@[ord[k as int]]));
            handed = handed.push(*c);
            outs = outs.push(out);
            assert(outs.drop_last() =~= prev_outs);
        }
        let ghost base = piece_views(all@);
        let ghost ov = piece_views(out@);
        let mut m: usize = 0;
        while m < out.len()
            invariant
                m <= out.len(),
                ov == piece_views(out@),
                piece_views(all@) == base + nonblank(ov.take(m as int)),
            decreases out.len() - m,
        {
            assert(ov.take(m + 1).drop_last() =~= ov.take(m as int));
            assert(ov.take(m + 1).last() == piece_view(out@[m as int]));
            let tv = chars_of(out[m].text.as_str());
            let t = trim_chars(&tv);
            let ghost before = piece_views(all@);
            if t.len() > 0 {
                let p = out[m].copy();
                all.push(p);
                assert(piece_views(all@) =~= before.push(piece_view(out@[m as int])));
                assert(piece_views(all@) =~= base + nonblank(ov.take(m + 1)));
            } else {
                assert(nonblank(ov.take(m + 1)) =~= nonblank(ov.take(m as int)) + Seq::<PieceView>::empty());
                assert(piece_views(all@) =~= base + nonblank(ov.take(m + 1)));
            }
            m += 1;
        }
        assert(ov.take(out.len() as int) =~= ov);
        assert(outs.last() == out);
        assert(nonblank_pieces(outs) == nonblank_pieces(prev_outs) + nonblank(ov));
        assert(piece_views(all@) =~= nonblank_pieces(outs));
        k += 1;
    }
    assert(handed_in_order(chunks@, handed));
    all
}

/// Rebuild a recording's transcript: the pieces of `build_pieces_unbridged`
/// with short interjections bridged, continuation chains collapsed, each run
/// of one label rendered as one `Label: text` line, and run-on sentences
/// merged across lines.
pub fn build_labelled_transcript<F: Fn(&ChunkRecord) -> Vec<LabelledPiece>>(
    chunks: &[ChunkRecord],
    split_chunk: &F,
) -> (r: String)
    requires
        forall|c: ChunkRecord| call_requires(*split_chunk, (&c,)),
    ensures
        exists|handed: Seq<ChunkRecord>, outs: Seq<Vec<LabelledPiece>>|
            #![trigger handed_in_order(chunks@, handed), split_results(*split_chunk, handed, outs)]
            handed_in_order(chunks@, handed) && split_results(*split_chunk, handed, outs)
                && r@ == transcript_of(nonblank_pieces(outs)),
{
    let pieces = build_pieces_unbridged(chunks, split_chunk);
    let r = transcript_from_pieces(pieces);
    r
}

// ---------------------------------------------------------------------------
// Laws
// ---------------------------------------------------------------------------

proof fn lemma_kept_upto_all(chunks: Seq<ChunkRecord>, n: int)
    requires
        0 <= n <= chunks.len(),
        forall|i: int| 0 <= i < n ==> keeps_chunk(chunks, i),
    ensures
        kept_upto(chunks, n) == Seq::new(n as nat, |i: int| i),
    decreases n,
{
    if n > 0 {
        lemma_kept_upto_all(chunks, n - 1);
        assert(kept_upto(chunks, n) =~= Seq::new(n as nat, |i: int| i));
    }
}

/// Echo removal never touches a recording without system audio: every chunk
/// is kept, in order.
pub proof fn law_dedup_noop_without_sys(chunks: Seq<ChunkRecord>)
    requires
        !has_sys(chunks),
    ensures
        kept_indices(chunks) == Seq::new(chunks.len(), |i: int| i),
{
    lemma_kept_upto_all(chunks, chunks.len() as int);
}

proof fn lemma_kept_upto_contains(chunks: Seq<ChunkRecord>, n: int, i: int)
    requires
        0 <= i < n <= chunks.len(),
        keeps_chunk(chunks, i),
    ensures
        kept_upto(chunks, n).contains(i),
    decreases n,
{
    if i < n - 1 {
        lemma_kept_upto_contains(chunks, n - 1, i);
        let p = kept_upto(chunks, n - 1);
        let k = choose|k: int| 0 <= k < p.len() && p[k] == i;
        assert(kept_upto(chunks, n)[k] == i);
    } else {
        let p = kept_upto(chunks, n - 1);
        assert(kept_upto(chunks, n)[p.len() as int] == i);
    }
}

/// Echo removal only ever drops mic chunks: every system chunk survives.
pub proof fn law_dedup_keeps_sys(chunks: Seq<ChunkRecord>, i: int)
    requires
        0 <= i < chunks.len(),
        chunks[i].source == ChunkSource::Sys,
    ensures
        kept_indices(chunks).contains(i),
{
    lemma_kept_upto_contains(chunks, chunks.len() as int, i);
}

/// The containment coefficient is a fraction between 0 and 1, and it is
/// `(0, 0)` exactly when either side has no tokens.
pub proof fn law_containment_at_most_one(a: Seq<Seq<char>>, b: Seq<Seq<char>>)
    ensures
        containment(a, b).0 <= containment(a, b).1,
        (containment(a, b).1 == 0) <== (a.len() == 0 || b.len() == 0),
{
    if a.len() > 0 && b.len() > 0 {
        lemma_first_occ_no_dups(a);
        lemma_first_occ_no_dups(b);
        lemma_shared_bound(first_occ(a), b, first_occ(b), Set::empty());
    }
}

} // verus!
