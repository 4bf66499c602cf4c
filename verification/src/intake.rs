//! What happens to a chunk's transcription before it joins the recording:
//! the language it is transcribed in, the vocabulary hints the provider
//! gets, the screening that drops hallucinated or looping output, and the
//! language recorded for the note once the recording is done.
use vstd::prelude::*;
use crate::filters::{
    attribution_stripped, is_likely_hallucination, is_repetition_collapse, likely_hallucination, majority_language,
    repetition_collapse, strip_attribution_tail, wins_vote,
};
use crate::labels::seqs_of_strings;
use crate::text::{all_ws, chars_eq, chars_of, is_blank, seqs, string_of, trim, trim_chars, utf8_len, utf8_len_at_most};
use crate::transcript::{jaccard, normalize_tokens, token_jaccard, tokens_of};
use crate::types::{ChunkRecord, ChunkSource};

verus! {

// ---------------------------------------------------------------------------
// Transcription language
// ---------------------------------------------------------------------------

/// The language a note's audio is handled in: the note's own, else the
/// global setting when the note's is blank.
pub open spec fn effective_language_spec(note_language: Seq<char>, global: Seq<char>) -> Seq<char> {
    if all_ws(note_language) {
        global
    } else {
        note_language
    }
}

/// The language a note's audio is handled in: the note's own, else the
/// global setting when the note's is blank.
pub fn effective_language(note_language: &str, global: &str) -> (r: String)
    ensures
        r@ == effective_language_spec(note_language@, global@),
{
    let n = chars_of(note_language);
    if is_blank(&n) {
        string_of(&chars_of(global))
    } else {
        string_of(&n)
    }
}

// ---------------------------------------------------------------------------
// Vocabulary hints
// ---------------------------------------------------------------------------

/// A character that separates custom-vocabulary entries.
pub open spec fn is_vocab_sep(c: char) -> bool {
    c == '\n' || c == ','
}

/// Index of the first separator in `s`, or `s.len()` when there is none.
pub open spec fn first_sep(s: Seq<char>) -> int
    decreases s.len(),
{
    if s.len() == 0 {
        0
    } else if is_vocab_sep(s[0]) {
        0
    } else {
        1 + first_sep(s.drop_first())
    }
}

pub proof fn lemma_first_sep(s: Seq<char>)
    ensures
        0 <= first_sep(s) <= s.len(),
        first_sep(s) < s.len() ==> is_vocab_sep(s[first_sep(s)]),
        forall|j: int| 0 <= j < first_sep(s) ==> !is_vocab_sep(#[trigger] s[j]),
    decreases s.len(),
{
    if s.len() > 0 && !is_vocab_sep(s[0]) {
        lemma_first_sep(s.drop_first());
        assert forall|j: int| 0 <= j < first_sep(s) implies !is_vocab_sep(#[trigger] s[j]) by {
            if j > 0 {
                assert(s[j] == s.drop_first()[j - 1]);
            }
        }
    }
}

/// The entries of a vocabulary string: the pieces between newlines and
/// commas (always at least one).
pub open spec fn vocab_pieces(s: Seq<char>) -> Seq<Seq<char>>
    decreases s.len(),
{
    let k = first_sep(s);
    if k >= s.len() {
        seq![s]
    } else {
        proof {
            lemma_first_sep(s);
        }
        seq![s.take(k)] + vocab_pieces(s.skip(k + 1))
    }
}

/// The trimmed entries of at least three bytes, in order.
pub open spec fn long_terms(ps: Seq<Seq<char>>) -> Seq<Seq<char>>
    decreases ps.len(),
{
    if ps.len() == 0 {
        seq![]
    } else {
        long_terms(ps.drop_last()) + if utf8_len(trim(ps.last())) >= 3 {
            seq![trim(ps.last())]
        } else {
            seq![]
        }
    }
}

/// The bias terms a vocabulary string gives the transcription provider:
/// its newline- or comma-separated entries, trimmed, without those shorter
/// than three bytes (which only cause false matches).
pub fn bias_terms(vocabulary: &str) -> (r: Vec<String>)
    ensures
        seqs_of_strings(r@) == long_terms(vocab_pieces(vocabulary@)),
{
    let v = chars_of(vocabulary);
    let mut out: Vec<String> = Vec::new();
    let mut start: usize = 0;
    let mut i: usize = 0;
    let ghost mut done: Seq<Seq<char>> = seq![];
    proof {
        lemma_vocab_pieces_split(v@, 0);
    }
    while i < v.len()
        invariant
            start <= i <= v.len(),
            forall|j: int| start <= j < i ==> !is_vocab_sep(#[trigger] v@[j]),
            vocab_pieces(v@) == done + vocab_pieces(v@.skip(start as int)),
            seqs_of_strings(out@) == long_terms(done),
        decreases v.len() - i,
    {
        if v[i] == '\n' || v[i] == ',' {
            let piece = crate::text::slice_sub(&v, start, i);
            let ghost rest = v@.skip(start as int);
            proof {
                lemma_first_sep_at(rest, i - start);
                assert(rest.take(i - start) =~= piece@);
                assert(rest.skip(i - start + 1) =~= v@.skip(i + 1));
                lemma_first_sep(rest);
                assert(vocab_pieces(rest) == seq![piece@] + vocab_pieces(v@.skip(i + 1)));
            }
            let t = trim_chars(&piece);
            let ghost old_done = done;
            if !utf8_len_at_most(&t, 2) {
                out.push(string_of(&t));
            }
            proof {
                done = done.push(piece@);
                assert(done.drop_last() =~= old_done);
                assert(seqs_of_strings(out@) =~= long_terms(done));
                assert(old_done + (seq![piece@] + vocab_pieces(v@.skip(i + 1))) =~= done + vocab_pieces(
                    v@.skip(i + 1),
                ));
            }
            start = i + 1;
        }
        i += 1;
    }
    let piece = crate::text::slice_sub(&v, start, v.len());
    let ghost rest = v@.skip(start as int);
    proof {
        lemma_first_sep_none(rest);
        assert(rest =~= piece@);
    }
    let t = trim_chars(&piece);
    let ghost old_done = done;
    if !utf8_len_at_most(&t, 2) {
        out.push(string_of(&t));
    }
    proof {
        done = done.push(piece@);
        assert(done.drop_last() =~= old_done);
        assert(old_done + seq![piece@] =~= done);
    }
    out
}

proof fn lemma_vocab_pieces_split(s: Seq<char>, k: int)
    requires
        k == 0,
    ensures
        vocab_pieces(s) == Seq::<Seq<char>>::empty() + vocab_pieces(s.skip(k)),
{
    assert(s.skip(0) =~= s);
    assert(Seq::<Seq<char>>::empty() + vocab_pieces(s) =~= vocab_pieces(s));
}

proof fn lemma_first_sep_at(s: Seq<char>, k: int)
    requires
        0 <= k < s.len(),
        is_vocab_sep(s[k]),
        forall|j: int| 0 <= j < k ==> !is_vocab_sep(#[trigger] s[j]),
    ensures
        first_sep(s) == k,
    decreases k,
{
    if k > 0 {
        assert forall|j: int| 0 <= j < k - 1 implies !is_vocab_sep(#[trigger] s.drop_first()[j]) by {
            assert(s.drop_first()[j] == s[j + 1]);
        }
        assert(s.drop_first()[k - 1] == s[k]);
        assert(!is_vocab_sep(s[0]));
        lemma_first_sep_at(s.drop_first(), k - 1);
    }
}

proof fn lemma_first_sep_none(s: Seq<char>)
    requires
        forall|j: int| 0 <= j < s.len() ==> !is_vocab_sep(#[trigger] s[j]),
    ensures
        first_sep(s) == s.len(),
        vocab_pieces(s) == seq![s],
    decreases s.len(),
{
    if s.len() > 0 {
        assert forall|j: int| 0 <= j < s.drop_first().len() implies !is_vocab_sep(#[trigger] s.drop_first()[j]) by {
            assert(s.drop_first()[j] == s[j + 1]);
        }
        assert(!is_vocab_sep(s[0]));
        lemma_first_sep_none(s.drop_first());
    }
}

// ---------------------------------------------------------------------------
// Screening a transcribed chunk
// ---------------------------------------------------------------------------

/// The new chunk's tokens are at least three and share at least 85% (by the
/// Jaccard measure) of their distinct tokens with the previous chunk's: a
/// decoder stuck re-emitting the same phrase chunk after chunk.
pub open spec fn repeats_previous(new_tokens: Seq<Seq<char>>, prev_tokens: Seq<Seq<char>>) -> bool {
    let (shared, union) = jaccard(new_tokens, prev_tokens);
    &&& new_tokens.len() >= 3
    &&& union > 0
    &&& 20 * shared >= 17 * union
}

/// What a transcribed chunk contributes: nothing when it looks like a
/// hallucination on silence or a repetition loop, or is empty once the
/// caption-credit tail is stripped and it is trimmed, or (on the mic) when
/// it repeats the previous mic chunk; otherwise that trimmed text.
pub open spec fn screened(text: Seq<char>, source: ChunkSource, prev: Option<Seq<char>>) -> Option<Seq<char>> {
    let t = trim(attribution_stripped(text));
    if likely_hallucination(text) || repetition_collapse(text) || t.len() == 0 {
        None
    } else if source == ChunkSource::Mic && (prev matches Some(p) && repeats_previous(tokens_of(t), tokens_of(p))) {
        None
    } else {
        Some(t)
    }
}

/// An optional string as plain characters.
pub open spec fn str_opt_view(s: Option<&str>) -> Option<Seq<char>> {
    match s {
        Some(p) => Some(p@),
        None => None,
    }
}

/// Screen a chunk's transcription before it joins the recording. `prev` is
/// the text of the latest chunk already kept from the same stream.
pub fn screen_chunk_text(text: &str, language: &str, source: ChunkSource, prev: Option<&str>) -> (r: Option<String>)
    ensures
        match r {
            Some(t) => screened(text@, source, str_opt_view(prev)) == Some(t@),
            None => screened(text@, source, str_opt_view(prev)) is None,
        },
{
    if is_likely_hallucination(text, language) {
        return None;
    }
    if is_repetition_collapse(text) {
        return None;
    }
    let stripped = strip_attribution_tail(text);
    let t = trim_chars(&chars_of(stripped.as_str()));
    if t.len() == 0 {
        return None;
    }
    let trimmed = string_of(&t);
    if source == ChunkSource::Mic {
        match prev {
            Some(p) => {
                let nt = normalize_tokens(trimmed.as_str());
                if nt.len() >= 3 {
                    let pt = normalize_tokens(p);
                    let (shared, union) = token_jaccard(&nt, &pt);
                    if union > 0 && (shared as u128) * 20 >= union * 17 {
                        return None;
                    }
                }
            },
            None => {},
        }
    }
    Some(trimmed)
}

// ---------------------------------------------------------------------------
// The note's detected language
// ---------------------------------------------------------------------------

/// `auto`.
pub open spec fn auto_word() -> Seq<char> {
    seq!['a', 'u', 't', 'o']
}

/// Whether the language vote over `chunks` gets recorded for the note as
/// `lang`: the note has none recorded yet, it is transcribed in `auto` mode,
/// and `lang` wins the vote.
pub open spec fn records_language(
    chunks: Seq<ChunkRecord>,
    already_detected: bool,
    note_language: Seq<char>,
    global: Seq<char>,
    lang: Seq<char>,
) -> bool {
    &&& !already_detected
    &&& effective_language_spec(note_language, global) == auto_word()
    &&& wins_vote(chunks, lang)
}

/// The language to record for a note after a recording: the winner of the
/// per-chunk language vote, when the note has none recorded yet and is
/// transcribed in `auto` mode; `None` otherwise.
pub fn language_to_record(
    chunks: &[ChunkRecord],
    already_detected: bool,
    note_language: &str,
    global: &str,
) -> (r: Option<String>)
    ensures
        match r {
            Some(l) => records_language(chunks@, already_detected, note_language@, global@, l@),
            None => forall|l: Seq<char>| !#[trigger] records_language(chunks@, already_detected, note_language@, global@, l),
        },
{
    let lang = match majority_language(chunks) {
        Some(l) => l,
        None => {
            return None;
        },
    };
    if already_detected {
        return None;
    }
    let resolved = effective_language(note_language, global);
    let auto: Vec<char> = vec!['a', 'u', 't', 'o'];
    assert(auto@ =~= auto_word());
    if !chars_eq(&chars_of(resolved.as_str()), &auto) {
        return None;
    }
    Some(lang)
}

} // verus!
