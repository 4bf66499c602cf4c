//! Comparing a note's transcript with what its session timelines account
//! for, to find transcript text no timeline covers.
use vstd::prelude::*;
use crate::text::{
    char_is_alphanumeric, char_lowercase, chars_eq, chars_of, extend_chars, is_alphanumeric,
    is_blank, lines, lowercase_char, seqs, slice_sub, split_lines, split_whitespace, split_ws,
    string_of, trim, trim_chars, all_ws,
};

verus! {

// ---------------------------------------------------------------------------
// Labels
// ---------------------------------------------------------------------------

/// Index of the first `": "` in `t`, or -1.
pub open spec fn colon_space_at(t: Seq<char>, from: int) -> int
    decreases t.len() - from,
{
    if from < 0 || from + 1 >= t.len() {
        -1
    } else if t[from] == ':' && t[from + 1] == ' ' {
        from
    } else {
        colon_space_at(t, from + 1)
    }
}

pub proof fn lemma_colon_space_at(t: Seq<char>, from: int)
    requires
        0 <= from,
    ensures
        colon_space_at(t, from) == -1 || (from <= colon_space_at(t, from) && colon_space_at(t, from)
            + 1 < t.len()),
    decreases t.len() - from,
{
    if from + 1 < t.len() && !(t[from] == ':' && t[from + 1] == ' ') {
        lemma_colon_space_at(t, from + 1);
    }
}

/// `t` holds a `:`.
pub open spec fn has_colon(t: Seq<char>) -> bool {
    exists|i: int| 0 <= i < t.len() && t[i] == ':'
}

/// How the reader splits a transcript line: the trimmed line is cut at its
/// first `": "`; the part before is the label when it is non-empty, at most
/// 40 characters and free of `:`; otherwise the whole trimmed line is
/// unlabelled text.
pub open spec fn split_label_spec(line: Seq<char>) -> (Option<Seq<char>>, Seq<char>) {
    let t = trim(line);
    let i = colon_space_at(t, 0);
    if i < 0 {
        (None, t)
    } else {
        let label = t.take(i);
        if label.len() == 0 || label.len() > 40 || has_colon(label) {
            (None, t)
        } else {
            (Some(label), t.skip(i + 2))
        }
    }
}

fn split_label_chars(line: &Vec<char>) -> (r: (Option<Vec<char>>, Vec<char>))
    ensures
        (match r.0 {
            Some(l) => Some(l@),
            None => None::<Seq<char>>,
        }, r.1@) == split_label_spec(line@),
{
    let t = trim_chars(line);
    let mut i: usize = 0;
    while t.len() > 1 && i < t.len() - 1 && !(t[i] == ':' && t[i + 1] == ' ')
        invariant
            i <= t.len(),
            colon_space_at(t@, 0) == colon_space_at(t@, i as int),
        decreases t.len() - i,
    {
        i += 1;
    }
    if t.len() <= 1 || i >= t.len() - 1 {
        assert(colon_space_at(t@, i as int) == -1);
        return (None, t);
    }
    assert(colon_space_at(t@, 0) == i);
    let label = slice_sub(&t, 0, i);
    assert(label@ =~= t@.take(i as int));
    let mut has: bool = false;
    let mut k: usize = 0;
    while k < label.len()
        invariant
            k <= label.len(),
            has == exists|j: int| 0 <= j < k && label@[j] == ':',
        decreases label.len() - k,
    {
        if label[k] == ':' {
            has = true;
        }
        k += 1;
    }
    if label.len() == 0 || label.len() > 40 || has {
        return (None, t);
    }
    let rest = slice_sub(&t, i + 2, t.len());
    assert(rest@ =~= t@.skip(i + 2));
    (Some(label), rest)
}

/// Split a transcript line into its speaker label and the words after it,
/// the way the reader parses it: an unbroken run of at most 40 non-colon
/// characters, then `": "`; anything else is an unlabelled line.
pub fn split_label(line: &str) -> (r: (Option<String>, String))
    ensures
        (match r.0 {
            Some(l) => Some(l@),
            None => None::<Seq<char>>,
        }, r.1@) == split_label_spec(line@),
{
    let v = chars_of(line);
    let (l, rest) = split_label_chars(&v);
    let label = match l {
        Some(x) => Some(string_of(&x)),
        None => None,
    };
    (label, string_of(&rest))
}

// ---------------------------------------------------------------------------
// Comparable words
// ---------------------------------------------------------------------------

/// A word folded for comparison: its alphanumeric characters, each
/// lowercased.
pub open spec fn fold_word(w: Seq<char>) -> Seq<char>
    decreases w.len(),
{
    if w.len() == 0 {
        seq![]
    } else {
        fold_word(w.drop_last()) + if char_is_alphanumeric(w.last()) {
            char_lowercase(w.last())
        } else {
            seq![]
        }
    }
}

/// The non-empty folded words of `ws`, in order.
pub open spec fn folded_words(ws: Seq<Seq<char>>) -> Seq<Seq<char>>
    decreases ws.len(),
{
    if ws.len() == 0 {
        seq![]
    } else {
        let f = fold_word(ws.last());
        folded_words(ws.drop_last()) + if f.len() > 0 {
            seq![f]
        } else {
            seq![]
        }
    }
}

/// The comparable words of the first `n` lines.
pub open spec fn line_words_upto(ls: Seq<Seq<char>>, n: int) -> Seq<Seq<char>>
    decreases n,
{
    if n <= 0 {
        seq![]
    } else {
        line_words_upto(ls, n - 1) + folded_words(split_ws(split_label_spec(ls[n - 1]).1))
    }
}

/// A transcript reduced to comparable words: per line, the words after any
/// speaker label, each reduced to its lowercased alphanumeric characters,
/// empty ones dropped.
pub open spec fn comparable(transcript: Seq<char>) -> Seq<Seq<char>> {
    let ls = lines(transcript);
    line_words_upto(ls, ls.len() as int)
}

fn fold_word_exec(w: &Vec<char>) -> (r: Vec<char>)
    ensures
        r@ == fold_word(w@),
{
    let mut r: Vec<char> = Vec::new();
    let mut i: usize = 0;
    while i < w.len()
        invariant
            i <= w.len(),
            r@ == fold_word(w@.take(i as int)),
        decreases w.len() - i,
    {
        assert(w@.take(i + 1).drop_last() =~= w@.take(i as int));
        if is_alphanumeric(w[i]) {
            let low = lowercase_char(w[i]);
            extend_chars(&mut r, &low);
        } else {
            assert(r@ + Seq::<char>::empty() =~= r@);
        }
        i += 1;
    }
    assert(w@.take(w.len() as int) =~= w@);
    r
}

fn comparable_chars(text: &Vec<char>) -> (r: Vec<Vec<char>>)
    ensures
        seqs(r@) == comparable(text@),
{
    let ls = split_lines(text);
    let ghost lv = seqs(ls@);
    let mut out: Vec<Vec<char>> = Vec::new();
    let mut i: usize = 0;
    while i < ls.len()
        invariant
            i <= ls.len(),
            lv == seqs(ls@),
            lv == lines(text@),
            seqs(out@) == line_words_upto(lv, i as int),
        decreases ls.len() - i,
    {
        assert(lv[i as int] == ls@[i as int]@);
        let (_, rest) = split_label_chars(&ls[i]);
        let ws = split_whitespace(&rest);
        let ghost wv = seqs(ws@);
        let ghost base = seqs(out@);
        let mut j: usize = 0;
        while j < ws.len()
            invariant
                j <= ws.len(),
                wv == seqs(ws@),
                seqs(out@) == base + folded_words(wv.take(j as int)),
            decreases ws.len() - j,
        {
            assert(wv.take(j + 1).drop_last() =~= wv.take(j as int));
            assert(wv.take(j + 1).last() == ws@[j as int]@);
            let f = fold_word_exec(&ws[j]);
            let ghost before = seqs(out@);
            if f.len() > 0 {
                out.push(f);
                assert(seqs(out@) =~= before.push(f@));
            }
            assert(seqs(out@) =~= base + folded_words(wv.take(j + 1)));
            j += 1;
        }
        assert(wv.take(ws.len() as int) =~= wv);
        i += 1;
    }
    out
}

/// A transcript reduced to comparable words: speaker labels dropped, case
/// and punctuation folded away.
pub fn comparable_words(transcript: &str) -> (r: Vec<String>)
    ensures
        crate::labels::seqs_of_strings(r@) == comparable(transcript@),
{
    let v = chars_of(transcript);
    let ws = comparable_chars(&v);
    let mut r: Vec<String> = Vec::new();
    let mut i: usize = 0;
    while i < ws.len()
        invariant
            i <= ws.len(),
            crate::labels::seqs_of_strings(r@) == seqs(ws@).take(i as int),
        decreases ws.len() - i,
    {
        let ghost before = crate::labels::seqs_of_strings(r@);
        r.push(string_of(&ws[i]));
        assert(seqs(ws@)[i as int] == ws@[i as int]@);
        assert(crate::labels::seqs_of_strings(r@) =~= before.push(ws@[i as int]@));
        assert(crate::labels::seqs_of_strings(r@) =~= seqs(ws@).take(i + 1));
        i += 1;
    }
    assert(seqs(ws@).take(ws.len() as int) =~= seqs(ws@));
    r
}

// ---------------------------------------------------------------------------
// Coverage
// ---------------------------------------------------------------------------

/// `a` is a subsequence of `b` (its elements occur in `b` in order).
pub open spec fn is_subsequence(a: Seq<Seq<char>>, b: Seq<Seq<char>>) -> bool
    decreases a.len() + b.len(),
{
    if a.len() == 0 {
        true
    } else if b.len() == 0 {
        false
    } else if a[0] == b[0] {
        is_subsequence(a.drop_first(), b.drop_first())
    } else {
        is_subsequence(a, b.drop_first())
    }
}

/// Whether the timelines' projection accounts for every word of the
/// transcript, in order: the transcript's comparable words are a
/// subsequence of the projection's.
pub fn projection_covers(transcript: &str, projection: &str) -> (b: bool)
    ensures
        b == is_subsequence(
            comparable(transcript@),
            comparable(projection@),
        ),
{
    let tw = comparable_chars(&chars_of(transcript));
    let pw = comparable_chars(&chars_of(projection));
    let ghost a = seqs(tw@);
    let ghost c = seqs(pw@);
    let mut i: usize = 0;
    let mut j: usize = 0;
    assert(a.skip(0) =~= a);
    assert(c.skip(0) =~= c);
    while i < tw.len()
        invariant
            i <= tw.len(),
            j <= pw.len(),
            a == seqs(tw@),
            c == seqs(pw@),
            a == comparable(transcript@),
            c == comparable(projection@),
            is_subsequence(a, c) == is_subsequence(a.skip(i as int), c.skip(j as int)),
        decreases tw.len() - i + pw.len() - j,
    {
        if j == pw.len() {
            assert(c.skip(j as int).len() == 0);
            return false;
        }
        assert(a.skip(i as int)[0] == tw@[i as int]@);
        assert(c.skip(j as int)[0] == pw@[j as int]@);
        assert(a.skip(i as int).drop_first() =~= a.skip(i + 1));
        assert(c.skip(j as int).drop_first() =~= c.skip(j + 1));
        if chars_eq(&tw[i], &pw[j]) {
            i += 1;
        }
        j += 1;
    }
    assert(a.skip(i as int).len() == 0);
    true
}

/// The number of leading lines of `ls` whose comparable words add up to
/// exactly `missing`; `None` when a line would overshoot or the lines run
/// out first.
pub open spec fn prefix_lines(ls: Seq<Seq<char>>, missing: int) -> Option<int>
    decreases ls.len(),
{
    if missing <= 0 {
        Some(0)
    } else if ls.len() == 0 {
        None
    } else {
        let n = comparable(ls[0]).len() as int;
        if n > missing {
            None
        } else {
            match prefix_lines(ls.drop_first(), missing - n) {
                Some(k) => Some(k + 1),
                None => None,
            }
        }
    }
}

/// The lines of `ls` that are not blank, in order.
pub open spec fn nonblank_lines(ls: Seq<Seq<char>>) -> Seq<Seq<char>>
    decreases ls.len(),
{
    if ls.len() == 0 {
        seq![]
    } else {
        nonblank_lines(ls.drop_last()) + if all_ws(ls.last()) {
            seq![]
        } else {
            seq![ls.last()]
        }
    }
}

/// What `orphaned_prefix` returns: the leading transcript lines the
/// projection does not cover, when the projection's words are exactly the
/// transcript's with a prefix missing and that prefix is a whole run of
/// leading lines (blank ones dropped); otherwise `None`.
pub open spec fn orphaned(transcript: Seq<char>, projection: Seq<char>) -> Option<Seq<Seq<char>>> {
    let tw = comparable(transcript);
    let pw = comparable(projection);
    if pw.len() == 0 || tw.len() <= pw.len() {
        None
    } else {
        let missing = tw.len() - pw.len();
        if tw.skip(missing) != pw {
            None
        } else {
            let ls = lines(transcript);
            match prefix_lines(ls, missing) {
                Some(k) => {
                    let out = nonblank_lines(ls.take(k));
                    if out.len() == 0 {
                        None
                    } else {
                        Some(out)
                    }
                },
                None => None,
            }
        }
    }
}

/// The leading transcript lines that `projection` (what the note's session
/// timelines account for) does not cover. Orphaned text is always a prefix,
/// since a new take's transcript is appended after the previous one; `None`
/// when nothing is orphaned or the gap is not a whole run of leading lines.
pub fn orphaned_prefix(transcript: &str, projection: &str) -> (r: Option<Vec<String>>)
    ensures
        match r {
            Some(v) => orphaned(transcript@, projection@) == Some(
                crate::labels::seqs_of_strings(v@),
            ),
            None => orphaned(transcript@, projection@) is None,
        },
{
    let tv = chars_of(transcript);
    let tw = comparable_chars(&tv);
    let pw = comparable_chars(&chars_of(projection));
    if pw.len() == 0 || tw.len() <= pw.len() {
        return None;
    }
    let missing0 = tw.len() - pw.len();
    let ghost a = seqs(tw@);
    let ghost c = seqs(pw@);
    let mut k: usize = 0;
    while k < pw.len()
        invariant
            k <= pw.len(),
            missing0 + pw.len() == tw.len(),
            a == seqs(tw@),
            c == seqs(pw@),
            a == comparable(transcript@),
            c == comparable(projection@),
            pw.len() > 0,
            forall|j: int| 0 <= j < k ==> a[missing0 + j] == c[j],
        decreases pw.len() - k,
    {
        if !chars_eq(&tw[missing0 + k], &pw[k]) {
            assert(a.skip(missing0 as int)[k as int] != c[k as int]);
            return None;
        }
        k += 1;
    }
    assert(a.skip(missing0 as int) =~= c);
    let ls = split_lines(&tv);
    let ghost lv = seqs(ls@);
    let mut missing = missing0;
    let mut taken: usize = 0;
    assert(lv.skip(0) =~= lv);
    while missing > 0
        invariant
            taken <= ls.len(),
            lv == seqs(ls@),
            lv == lines(tv@),
            tv@ == transcript@,
            a == comparable(transcript@),
            c == comparable(projection@),
            c.len() > 0,
            a.len() > c.len(),
            missing0 == a.len() - c.len(),
            a.skip(missing0 as int) == c,
            prefix_lines(lv, missing0 as int) == match prefix_lines(lv.skip(taken as int), missing as int) {
                Some(j) => Some(j + taken),
                None => None::<int>,
            },
        decreases ls.len() - taken,
    {
        if taken == ls.len() {
            assert(lv.skip(taken as int).len() == 0);
            return None;
        }
        let n = comparable_chars(&ls[taken]).len();
        assert(lv.skip(taken as int)[0] == ls@[taken as int]@);
        assert(lv.skip(taken as int).drop_first() =~= lv.skip(taken + 1));
        if n > missing {
            return None;
        }
        missing = missing - n;
        taken += 1;
    }
    assert(prefix_lines(lv, missing0 as int) == Some(taken as int));
    let mut out: Vec<String> = Vec::new();
    let mut i: usize = 0;
    while i < taken
        invariant
            i <= taken <= ls.len(),
            lv == seqs(ls@),
            crate::labels::seqs_of_strings(out@) == nonblank_lines(lv.take(i as int)),
        decreases taken - i,
    {
        assert(lv.take(i + 1).drop_last() =~= lv.take(i as int));
        assert(lv.take(i + 1).last() == ls@[i as int]@);
        let ghost before = crate::labels::seqs_of_strings(out@);
        if !is_blank(&ls[i]) {
            out.push(string_of(&ls[i]));
            assert(crate::labels::seqs_of_strings(out@) =~= before.push(ls@[i as int]@));
        }
        assert(crate::labels::seqs_of_strings(out@) =~= nonblank_lines(lv.take(i + 1)));
        i += 1;
    }
    if out.len() == 0 {
        return None;
    }
    Some(out)
}

// ---------------------------------------------------------------------------
// Repair on note open
// ---------------------------------------------------------------------------

/// What opening a note does about transcript text its timelines miss.
#[derive(Debug)]
pub enum RepairPlan {
    /// Nothing is missing (or there is no transcript, or no timeline at all).
    NothingToDo,
    /// Words are missing, but not as a run of leading lines a synthesized
    /// session could hold; the reader shows all the text instead.
    CannotRepair,
    /// These leading transcript lines get a session of their own.
    Repair(Vec<String>),
}

/// Decide the repair for a note's transcript and its timelines' projection:
/// nothing when either is blank or the projection covers the transcript;
/// otherwise the orphaned leading lines, when the gap is such a run.
pub fn plan_repair(transcript: &str, projection: &str) -> (r: RepairPlan)
    ensures
        match r {
            RepairPlan::NothingToDo => all_ws(transcript@) || all_ws(projection@) || is_subsequence(
                comparable(transcript@),
                comparable(projection@),
            ),
            RepairPlan::CannotRepair => {
                &&& !all_ws(transcript@)
                &&& !all_ws(projection@)
                &&& !is_subsequence(comparable(transcript@), comparable(projection@))
                &&& orphaned(transcript@, projection@) is None
            },
            RepairPlan::Repair(lines) => {
                &&& !all_ws(transcript@)
                &&& !all_ws(projection@)
                &&& !is_subsequence(comparable(transcript@), comparable(projection@))
                &&& orphaned(transcript@, projection@) == Some(crate::labels::seqs_of_strings(lines@))
            },
        },
{
    if is_blank(&chars_of(transcript)) || is_blank(&chars_of(projection)) {
        return RepairPlan::NothingToDo;
    }
    if projection_covers(transcript, projection) {
        return RepairPlan::NothingToDo;
    }
    match orphaned_prefix(transcript, projection) {
        Some(lines) => RepairPlan::Repair(lines),
        None => RepairPlan::CannotRepair,
    }
}

// ---------------------------------------------------------------------------
// Repair session ids
// ---------------------------------------------------------------------------

/// The UUID namespace repair session ids are derived under.
pub const REPAIR_SESSION_NAMESPACE: u128 = 0x0169_c0de_5e55_1047_a11e_d7ea_11ce_0001;

/// The text of the version-5 UUID `uuid` derives from namespace `ns`
/// (given as its 128-bit value) and the bytes `name`.
pub uninterp spec fn uuid_v5_text(ns: u128, name: Seq<u8>) -> Seq<char>;

/// Calls `uuid::Uuid::new_v5` (namespace built with `Uuid::from_u128`) and
/// formats the result with `to_string`. Trusted: the text is the one the
/// name `uuid_v5_text` stands for, a function of the namespace and the bytes
/// alone (SHA-1 based, no randomness), in the 36-character hyphenated form
/// the crate documents.
#[verifier::external_body]
fn uuid_v5_string(ns: u128, name: &[u8]) -> (r: String)
    ensures
        r@ == uuid_v5_text(ns, name@),
        r@.len() == 36,
{
    uuid::Uuid::new_v5(&uuid::Uuid::from_u128(ns), name).to_string()
}

/// The seed a repair session id is derived from: the note id, then each
/// orphaned line trimmed, each after a newline.
pub open spec fn repair_seed(note_id: Seq<char>, lines: Seq<Seq<char>>) -> Seq<char>
    decreases lines.len(),
{
    if lines.len() == 0 {
        note_id
    } else {
        repair_seed(note_id, lines.drop_last()) + seq!['\n'] + trim(lines.last())
    }
}

/// The synthesized repair session's id: a version-5 UUID of the note id and
/// the orphaned lines it repairs, so every device repairing the same orphan
/// derives the same id.
pub fn repair_session_id(note_id: &str, lines: &[&str]) -> (r: String)
    ensures
        r@ == uuid_v5_text(
            REPAIR_SESSION_NAMESPACE,
            vstd::utf8::encode_utf8(repair_seed(note_id@, lines@.map_values(|l: &str| l@))),
        ),
        r@.len() == 36,
{
    let ghost ls = lines@.map_values(|l: &str| l@);
    let mut seed = chars_of(note_id);
    let mut i: usize = 0;
    while i < lines.len()
        invariant
            i <= lines.len(),
            ls == lines@.map_values(|l: &str| l@),
            seed@ == repair_seed(note_id@, ls.take(i as int)),
        decreases lines.len() - i,
    {
        assert(ls.take(i + 1).drop_last() =~= ls.take(i as int));
        assert(ls.take(i + 1).last() == lines@[i as int]@);
        seed.push('\n');
        let t = trim_chars(&chars_of(lines[i]));
        extend_chars(&mut seed, &t);
        i += 1;
    }
    assert(ls.take(lines.len() as int) =~= ls);
    let s = string_of(&seed);
    let bytes = s.as_str().as_bytes();
    uuid_v5_string(REPAIR_SESSION_NAMESPACE, bytes)
}

// ---------------------------------------------------------------------------
// Laws
// ---------------------------------------------------------------------------

proof fn lemma_subsequence_refl(a: Seq<Seq<char>>)
    ensures
        is_subsequence(a, a),
    decreases a.len(),
{
    if a.len() > 0 {
        lemma_subsequence_refl(a.drop_first());
    }
}

/// A transcript's own words always cover it.
pub proof fn law_projection_covers_itself(t: Seq<char>)
    ensures
        is_subsequence(comparable(t), comparable(t)),
{
    lemma_subsequence_refl(comparable(t));
}

proof fn lemma_repair_seed_trims(note_id: Seq<char>, a: Seq<Seq<char>>, b: Seq<Seq<char>>)
    requires
        a.len() == b.len(),
        forall|i: int| 0 <= i < a.len() ==> trim(#[trigger] a[i]) == trim(b[i]),
    ensures
        repair_seed(note_id, a) == repair_seed(note_id, b),
    decreases a.len(),
{
    if a.len() > 0 {
        assert(trim(a[a.len() - 1]) == trim(b[b.len() - 1]));
        lemma_repair_seed_trims(note_id, a.drop_last(), b.drop_last());
    }
}

/// Orphaned lines that differ only in surrounding whitespace give the same
/// repair session id, as the repaired entries are written trimmed.
pub proof fn law_repair_id_ignores_padding(note_id: Seq<char>, a: Seq<Seq<char>>, b: Seq<Seq<char>>)
    requires
        a.len() == b.len(),
        forall|i: int| 0 <= i < a.len() ==> trim(#[trigger] a[i]) == trim(b[i]),
    ensures
        uuid_v5_text(REPAIR_SESSION_NAMESPACE, vstd::utf8::encode_utf8(repair_seed(note_id, a)))
            == uuid_v5_text(REPAIR_SESSION_NAMESPACE, vstd::utf8::encode_utf8(repair_seed(note_id, b))),
{
    lemma_repair_seed_trims(note_id, a, b);
}

/// Nothing is orphaned when the projection reads exactly like the
/// transcript.
pub proof fn law_nothing_orphaned_against_itself(t: Seq<char>)
    ensures
        orphaned(t, t) is None,
{
}

} // verus!
