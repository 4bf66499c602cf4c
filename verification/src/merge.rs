//! Line-level clean-up of a labelled transcript: recognising `Label: `
//! prefixes, sentence ends and lowercase continuations, and the boundary
//! repairs `merge_run_on_sentences` applies between adjacent lines.
use vstd::prelude::*;
use crate::text::{
    char_is_lowercase, char_utf8_len, chars_of, find_char, is_lowercase, len_utf8,
    lemma_pos_of_props, lemma_trim_start_shape, lemma_utf8_len_prefix, pos_of, slice_sub,
    string_of, trim_end_chars, trim_start, trim_start_index, utf8_len, utf8_len_at_most,
    utf8_prefix_len, trim_end, trim, split_ws, join, contains_sub, str_lowercase, trim_chars,
    split_whitespace, join_chars, extend_chars, contains_chars, lowercase_str, split_on,
    split_char, seqs, copy_chars, is_uppercase, char_is_uppercase, is_blank, trim_start_chars,
    lemma_trim_end_shape,
};

verus! {

// ---------------------------------------------------------------------------
// Character sets
// ---------------------------------------------------------------------------

/// Characters `ends_sentence` accepts as the last meaningful one.
pub open spec fn is_sentence_end(c: char) -> bool {
    c == '.' || c == '!' || c == '?' || c == ':' || c == ';' || c == '…' || c == '—' || c == '–'
        || c == '-'
}

/// Closing quotes, brackets and spaces `ends_sentence` looks past.
pub open spec fn is_closer(c: char) -> bool {
    c == '"' || c == '\'' || c == ')' || c == ']' || c == '»' || c == '”' || c == '’' || c == ' '
}

/// The sentence terminators the boundary moves split on (`.!?…`).
pub open spec fn is_term(c: char) -> bool {
    c == '.' || c == '!' || c == '?' || c == '…'
}

fn sentence_end_char(c: char) -> (b: bool)
    ensures
        b == is_sentence_end(c),
{
    c == '.' || c == '!' || c == '?' || c == ':' || c == ';' || c == '…' || c == '—' || c == '–'
        || c == '-'
}

fn closer_char(c: char) -> (b: bool)
    ensures
        b == is_closer(c),
{
    c == '"' || c == '\'' || c == ')' || c == ']' || c == '»' || c == '”' || c == '’' || c == ' '
}

fn term_char(c: char) -> (b: bool)
    ensures
        b == is_term(c),
{
    c == '.' || c == '!' || c == '?' || c == '…'
}

// ---------------------------------------------------------------------------
// Label prefixes
// ---------------------------------------------------------------------------

/// Number of characters of `line` taken by a `Label: ` prefix: leading
/// whitespace, a label of 1..=40 bytes holding no `:` or newline, the colon,
/// and the whitespace after it. 0 when the line carries no such prefix.
pub open spec fn label_len(line: Seq<char>) -> int {
    let t = trim_start(line);
    let a = line.len() - t.len();
    let c = pos_of(t, ':');
    if c <= 0 {
        0
    } else {
        let label = t.take(c);
        if utf8_len(label) > 40 || label.contains('\n') {
            0
        } else {
            let after = t.skip(c + 1);
            a + c + 1 + (after.len() - trim_start(after).len())
        }
    }
}

/// The part of `line` after its label prefix.
pub open spec fn line_body(line: Seq<char>) -> Seq<char> {
    line.skip(label_len(line))
}

pub proof fn lemma_label_len_bound(line: Seq<char>)
    ensures
        0 <= label_len(line) <= line.len(),
{
    lemma_trim_start_shape(line);
    let t = trim_start(line);
    let c = pos_of(t, ':');
    lemma_pos_of_props(t, ':');
    if c > 0 {
        let after = t.skip(c + 1);
        lemma_trim_start_shape(after);
    }
}

/// Whether `v` holds a `'\n'`.
fn has_newline(v: &[char]) -> (b: bool)
    ensures
        b == v@.contains('\n'),
{
    let r = find_char(v, '\n');
    proof {
        lemma_pos_of_props(v@, '\n');
        if r is None {
            assert forall|j: int| 0 <= j < v@.len() implies v@[j] != '\n' by {}
        }
    }
    r.is_some()
}

/// `label_len` computed.
pub fn label_len_chars(line: &[char]) -> (n: usize)
    ensures
        n == label_len(line@),
        n <= line.len(),
{
    proof {
        lemma_label_len_bound(line@);
        lemma_trim_start_shape(line@);
    }
    let a = trim_start_index(line);
    let t = slice_sub(line, a, line.len());
    assert(t@ == trim_start(line@));
    let c = match find_char(&t, ':') {
        Some(c) => c,
        None => {
            return 0;
        },
    };
    if c == 0 {
        return 0;
    }
    let label = slice_sub(&t, 0, c);
    assert(label@ =~= t@.take(c as int));
    if !utf8_len_at_most(&label, 40) || has_newline(&label) {
        return 0;
    }
    let after = slice_sub(&t, c + 1, t.len());
    assert(after@ =~= t@.skip(c + 1));
    let b = trim_start_index(&after);
    proof {
        lemma_trim_start_shape(after@);
    }
    a + c + 1 + b
}

/// Split a transcript line into `(label_with_separator, body)`: the label part
/// holds the leading whitespace, the label, the colon and the whitespace after
/// it, so the two halves concatenate back to `line`. `("", line)` when the line
/// has no label prefix.
pub fn split_label_prefix(line: &str) -> (r: (String, String))
    ensures
        r.0@ == line@.take(label_len(line@)),
        r.1@ == line_body(line@),
        r.0@ + r.1@ == line@,
{
    let v = chars_of(line);
    let n = label_len_chars(&v);
    let a = slice_sub(&v, 0, n);
    let b = slice_sub(&v, n, v.len());
    assert(a@ + b@ =~= line@);
    (string_of(&a), string_of(&b))
}

/// `line` with a leading `Label: ` removed (and the whitespace after the
/// colon); `line` unchanged when it has no label prefix.
pub fn strip_label_prefix(line: &str) -> (r: String)
    ensures
        r@ == line_body(line@),
{
    let v = chars_of(line);
    let n = label_len_chars(&v);
    let b = slice_sub(&v, n, v.len());
    string_of(&b)
}

// ---------------------------------------------------------------------------
// Sentence ends and continuations
// ---------------------------------------------------------------------------

/// Length of the run of closing characters that ends `t`.
pub open spec fn closer_run(t: Seq<char>) -> nat
    decreases t.len(),
{
    if t.len() > 0 && is_closer(t.last()) {
        1 + closer_run(t.drop_last())
    } else {
        0
    }
}

pub proof fn lemma_closer_run(t: Seq<char>, k: int)
    requires
        0 <= k <= t.len(),
        forall|j: int| t.len() - k <= j < t.len() ==> is_closer(t[j]),
        k == t.len() || !is_closer(t[t.len() - k - 1]),
    ensures
        closer_run(t) == k,
    decreases k,
{
    if k > 0 {
        assert forall|j: int|
            t.drop_last().len() - (k - 1) <= j < t.drop_last().len() implies is_closer(
            t.drop_last()[j],
        ) by {}
        lemma_closer_run(t.drop_last(), k - 1);
    }
}

/// Whether `line`, ignoring trailing whitespace and closing quotes/brackets,
/// ends with one of `. ! ? : ; … — – -`.
pub open spec fn ends_sentence_spec(line: Seq<char>) -> bool {
    let t = trim_end(line);
    let k = closer_run(t);
    t.len() > 0 && is_sentence_end(t[if k + 1 <= t.len() { t.len() - k - 1 } else { 0 }])
}

fn ends_sentence_chars(line: &[char]) -> (b: bool)
    ensures
        b == ends_sentence_spec(line@),
{
    let t = trim_end_chars(line);
    if t.len() == 0 {
        return false;
    }
    let mut k: usize = 0;
    while k < t.len() && closer_char(t[t.len() - k - 1])
        invariant
            k <= t.len(),
            forall|j: int| t.len() - k <= j < t.len() ==> is_closer(t@[j]),
        decreases t.len() - k,
    {
        k += 1;
    }
    proof {
        lemma_closer_run(t@, k as int);
    }
    let idx = if k < t.len() {
        t.len() - k - 1
    } else {
        0
    };
    sentence_end_char(t[idx])
}

/// Whether `line` ends with sentence-terminating punctuation, allowing
/// trailing closing quotes / brackets and whitespace after it. Dashes count
/// as terminators: they mark a speaker trailing off or being interrupted.
pub fn ends_sentence(line: &str) -> (b: bool)
    ensures
        b == ends_sentence_spec(line@),
{
    let v = chars_of(line);
    ends_sentence_chars(&v)
}

/// The body of `line` (after any label prefix) starts with a lowercase letter.
pub open spec fn starts_lowercase_spec(line: Seq<char>) -> bool {
    let body = line_body(line);
    body.len() > 0 && char_is_lowercase(body[0])
}

fn starts_lowercase_chars(line: &[char]) -> (b: bool)
    ensures
        b == starts_lowercase_spec(line@),
{
    let n = label_len_chars(line);
    if n < line.len() {
        is_lowercase(line[n])
    } else {
        false
    }
}

/// Whether `line`, after any `Label: ` prefix, begins with a lowercase letter
/// — the cue that it continues the previous line's clause.
pub fn starts_lowercase(line: &str) -> (b: bool)
    ensures
        b == starts_lowercase_spec(line@),
{
    let v = chars_of(line);
    starts_lowercase_chars(&v)
}

// ---------------------------------------------------------------------------
// Terminator positions
// ---------------------------------------------------------------------------

/// Character index of the last `.!?…` in `s`, or -1.
pub open spec fn last_term_pos(s: Seq<char>) -> int
    decreases s.len(),
{
    if s.len() == 0 {
        -1
    } else if is_term(s.last()) {
        s.len() - 1
    } else {
        last_term_pos(s.drop_last())
    }
}

/// Character index of the first `.!?…` in `s`, or -1.
pub open spec fn first_term_pos(s: Seq<char>) -> int
    decreases s.len(),
{
    if s.len() == 0 {
        -1
    } else if is_term(s[0]) {
        0
    } else {
        let r = first_term_pos(s.drop_first());
        if r < 0 {
            -1
        } else {
            r + 1
        }
    }
}

pub proof fn lemma_last_term_pos(s: Seq<char>, k: int)
    requires
        -1 <= k < s.len(),
        forall|j: int| k < j < s.len() ==> !is_term(s[j]),
        k >= 0 ==> is_term(s[k]),
    ensures
        last_term_pos(s) == k,
    decreases s.len(),
{
    if s.len() > 0 && k < s.len() - 1 {
        lemma_last_term_pos(s.drop_last(), k);
    }
}

pub proof fn lemma_first_term_pos(s: Seq<char>, k: int)
    requires
        0 <= k <= s.len(),
        forall|j: int| 0 <= j < k ==> !is_term(s[j]),
        k < s.len() ==> is_term(s[k]),
    ensures
        first_term_pos(s) == (if k == s.len() { -1 } else { k }),
    decreases k,
{
    if k > 0 {
        lemma_first_term_pos(s.drop_first(), k - 1);
    }
}

pub proof fn lemma_last_term_props(s: Seq<char>)
    ensures
        -1 <= last_term_pos(s) < s.len(),
        last_term_pos(s) >= 0 ==> is_term(s[last_term_pos(s)]),
        forall|j: int| last_term_pos(s) < j < s.len() ==> !is_term(#[trigger] s[j]),
    decreases s.len(),
{
    if s.len() > 0 && !is_term(s.last()) {
        lemma_last_term_props(s.drop_last());
        assert forall|j: int| last_term_pos(s) < j < s.len() implies !is_term(#[trigger] s[j]) by {
            if j < s.len() - 1 {
                assert(s[j] == s.drop_last()[j]);
            }
        }
    }
}

fn last_term_chars(s: &[char]) -> (r: Option<usize>)
    ensures
        r is None ==> last_term_pos(s@) == -1,
        r matches Some(k) ==> last_term_pos(s@) == k && k < s.len(),
{
    let mut j: usize = s.len();
    while j > 0 && !term_char(s[j - 1])
        invariant
            j <= s.len(),
            forall|t: int| j <= t < s.len() ==> !is_term(s@[t]),
        decreases j,
    {
        j -= 1;
    }
    proof {
        lemma_last_term_pos(s@, j - 1);
    }
    if j == 0 {
        None
    } else {
        Some(j - 1)
    }
}

fn first_term_chars(s: &[char]) -> (r: Option<usize>)
    ensures
        r is None ==> first_term_pos(s@) == -1,
        r matches Some(k) ==> first_term_pos(s@) == k && k < s.len(),
{
    let mut j: usize = 0;
    while j < s.len() && !term_char(s[j])
        invariant
            j <= s.len(),
            forall|t: int| 0 <= t < j ==> !is_term(s@[t]),
        decreases s.len() - j,
    {
        j += 1;
    }
    proof {
        lemma_first_term_pos(s@, j as int);
    }
    if j == s.len() {
        None
    } else {
        Some(j)
    }
}

/// Byte offset of the last sentence terminator (`.!?…`) in `s`, or `None`.
pub fn last_terminator_index(s: &str) -> (r: Option<usize>)
    requires
        utf8_len(s@) <= usize::MAX,
    ensures
        last_term_pos(s@) < 0 ==> r is None,
        last_term_pos(s@) >= 0 ==> r == Some(utf8_len(s@.take(last_term_pos(s@))) as usize),
{
    let v = chars_of(s);
    match last_term_chars(&v) {
        Some(k) => Some(utf8_prefix_len(&v, k)),
        None => None,
    }
}

/// Byte offset of the first sentence terminator (`.!?…`) in `s`, or `None`.
pub fn first_terminator_index(s: &str) -> (r: Option<usize>)
    requires
        utf8_len(s@) <= usize::MAX,
    ensures
        first_term_pos(s@) < 0 ==> r is None,
        first_term_pos(s@) >= 0 ==> r == Some(utf8_len(s@.take(first_term_pos(s@))) as usize),
{
    let v = chars_of(s);
    match first_term_chars(&v) {
        Some(k) => Some(utf8_prefix_len(&v, k)),
        None => None,
    }
}

/// Length in bytes of the character starting at byte offset `i` of `s`
/// (0 when `i` is the end of `s`). `i` must be a character boundary.
pub fn char_len_at(s: &str, i: usize) -> (n: usize)
    requires
        utf8_len(s@) <= usize::MAX,
        exists|k: int| 0 <= k <= s@.len() && utf8_len(#[trigger] s@.take(k)) == i,
    ensures
        forall|k: int|
            0 <= k <= s@.len() && utf8_len(#[trigger] s@.take(k)) == i ==> n == (if k < s@.len() {
                char_utf8_len(s@[k])
            } else {
                0
            }),
{
    let v = chars_of(s);
    let mut k: usize = 0;
    let mut off: usize = 0;
    let ghost kk = choose|k: int| 0 <= k <= s@.len() && utf8_len(#[trigger] s@.take(k)) == i;
    proof {
        lemma_utf8_prefix_strict(v@);
    }
    while k < v.len() && off < i
        invariant
            k <= v.len(),
            v@ == s@,
            utf8_len(v@) <= usize::MAX,
            off == utf8_len(v@.take(k as int)),
            0 <= kk <= v@.len(),
            utf8_len(v@.take(kk)) == i,
            k <= kk,
            forall|a: int, b: int|
                0 <= a < b <= v@.len() ==> utf8_len(#[trigger] v@.take(a)) < utf8_len(
                    #[trigger] v@.take(b),
                ),
        decreases v.len() - k,
    {
        proof {
            assert(v@.take(k + 1).drop_last() =~= v@.take(k as int));
            lemma_utf8_len_prefix(v@, k + 1);
        }
        off = off + len_utf8(v[k]);
        k += 1;
    }
    assert(k == kk) by {
        if k < kk {
        }
        if kk < k {
        }
    }
    if k < v.len() {
        len_utf8(v[k])
    } else {
        0
    }
}

/// Prefix UTF-8 lengths grow strictly with the prefix.
pub proof fn lemma_utf8_prefix_strict(s: Seq<char>)
    ensures
        forall|a: int, b: int|
            0 <= a < b <= s.len() ==> utf8_len(#[trigger] s.take(a)) < utf8_len(
                #[trigger] s.take(b),
            ),
{
    assert forall|a: int, b: int| 0 <= a < b <= s.len() implies utf8_len(
        #[trigger] s.take(a),
    ) < utf8_len(#[trigger] s.take(b)) by {
        lemma_utf8_prefix_mono(s, a, b);
    }
}

proof fn lemma_utf8_prefix_mono(s: Seq<char>, a: int, b: int)
    requires
        0 <= a < b <= s.len(),
    ensures
        utf8_len(s.take(a)) < utf8_len(s.take(b)),
    decreases b - a,
{
    assert(s.take(b).drop_last() =~= s.take(b - 1));
    if a < b - 1 {
        lemma_utf8_prefix_mono(s, a, b - 1);
    }
}


// ---------------------------------------------------------------------------
// Boundary moves between adjacent lines
// ---------------------------------------------------------------------------

/// Most words a boundary fragment may hold to be moved across a line break.
pub const BOUNDARY_FRAGMENT_MAX_WORDS: usize = 3;

/// Some word of `ws` holds a sentence terminator.
pub open spec fn any_word_has_term(ws: Seq<Seq<char>>) -> bool {
    exists|i: int| 0 <= i < ws.len() && last_term_pos(#[trigger] ws[i]) >= 0
}

/// The forward move: `prev`'s body ends `<sentence>. <1–3 words>` whose first
/// word is capitalised and holds no terminator, and `next` starts lowercase.
/// The trailing words go to the front of `next`'s body, joined by single
/// spaces; both labels stay.
pub open spec fn forward_move(prev: Seq<char>, next: Seq<char>) -> Option<(Seq<char>, Seq<char>)> {
    let pl = label_len(prev);
    let nl = label_len(next);
    let pb = prev.skip(pl);
    let nb = next.skip(nl);
    if trim(pb).len() == 0 || trim(nb).len() == 0 {
        None
    } else {
        let p = last_term_pos(pb);
        if p < 0 {
            None
        } else {
            let trailing = trim(pb.skip(p + 1));
            let tw = split_ws(trailing);
            if trailing.len() == 0 || tw.len() == 0 || tw.len() > 3 {
                None
            } else if tw[0].len() == 0 || !char_is_uppercase(tw[0][0]) {
                None
            } else if any_word_has_term(tw) {
                None
            } else if !starts_lowercase_spec(next) {
                None
            } else {
                Some(
                    (
                        prev.take(pl) + trim_end(pb.take(p + 1)),
                        next.take(nl) + join(tw, seq![' ']) + seq![' '] + nb,
                    ),
                )
            }
        }
    }
}

/// The backward move: `prev` ends without a terminator and `next`'s body opens
/// with 1–3 words closed by a terminator followed by more text. That closing
/// fragment moves to the end of `prev`; both labels stay.
pub open spec fn backward_move(prev: Seq<char>, next: Seq<char>) -> Option<(Seq<char>, Seq<char>)> {
    let pl = label_len(prev);
    let nl = label_len(next);
    let pb = prev.skip(pl);
    let nb = next.skip(nl);
    if trim(pb).len() == 0 || trim(nb).len() == 0 {
        None
    } else if ends_sentence_spec(prev) {
        None
    } else {
        let q = first_term_pos(nb);
        if q < 0 {
            None
        } else {
            let leading = trim(nb.take(q + 1));
            let rest = trim_start(nb.skip(q + 1));
            let lw = split_ws(leading);
            if lw.len() == 0 || lw.len() > 3 || rest.len() == 0 {
                None
            } else {
                Some((prev.take(pl) + trim_end(pb) + seq![' '] + leading, next.take(nl) + rest))
            }
        }
    }
}

/// The stutter signal: the phrase made of `prev`'s trailing fragment and
/// `next`'s leading fragment already occurs (case-folded) in `prev` up to its
/// last terminator.
pub open spec fn repetition_signal(prev: Seq<char>, next: Seq<char>) -> bool {
    let pb = line_body(prev);
    let nb = line_body(next);
    let p = last_term_pos(pb);
    let q = first_term_pos(nb);
    if p < 0 || q < 0 {
        false
    } else {
        let trailing = trim(pb.skip(p + 1));
        let leading = trim(nb.take(q));
        if trailing.len() == 0 || leading.len() == 0 {
            false
        } else {
            contains_sub(
                str_lowercase(pb.take(p + 1)),
                str_lowercase(trailing + seq![' '] + leading),
            )
        }
    }
}

fn any_word_has_term_exec(ws: &Vec<Vec<char>>) -> (b: bool)
    ensures
        b == any_word_has_term(seqs(ws@)),
{
    let mut i: usize = 0;
    while i < ws.len()
        invariant
            i <= ws.len(),
            forall|j: int| 0 <= j < i ==> last_term_pos(#[trigger] seqs(ws@)[j]) < 0,
        decreases ws.len() - i,
    {
        if last_term_chars(&ws[i]).is_some() {
            assert(seqs(ws@)[i as int] == ws@[i as int]@);
            return true;
        }
        i += 1;
    }
    false
}

/// `forward_move` computed on character vectors.
pub fn forward_move_chars(prev: &[char], next: &[char]) -> (r: Option<(Vec<char>, Vec<char>)>)
    ensures
        r is None <==> forward_move(prev@, next@) is None,
        r matches Some((a, b)) ==> forward_move(prev@, next@) == Some((a@, b@)),
{
    let pl = label_len_chars(prev);
    let nl = label_len_chars(next);
    let pb = slice_sub(prev, pl, prev.len());
    let nb = slice_sub(next, nl, next.len());
    if is_blank(&pb) || is_blank(&nb) {
        return None;
    }
    let p = match last_term_chars(&pb) {
        Some(p) => p,
        None => {
            return None;
        },
    };
    let after = slice_sub(&pb, p + 1, pb.len());
    let trailing = trim_chars(&after);
    let tw = split_whitespace(&trailing);
    if trailing.len() == 0 || tw.len() == 0 || tw.len() > BOUNDARY_FRAGMENT_MAX_WORDS {
        return None;
    }
    assert(seqs(tw@)[0] == tw@[0]@);
    if tw[0].len() == 0 || !is_uppercase(tw[0][0]) {
        return None;
    }
    if any_word_has_term_exec(&tw) {
        return None;
    }
    if !starts_lowercase_chars(next) {
        return None;
    }
    let kept_raw = slice_sub(&pb, 0, p + 1);
    let kept = trim_end_chars(&kept_raw);
    let mut new_prev = slice_sub(prev, 0, pl);
    extend_chars(&mut new_prev, &kept);
    let mut new_next = slice_sub(next, 0, nl);
    let sp: Vec<char> = vec![' '];
    let joined = join_chars(&tw, &sp);
    extend_chars(&mut new_next, &joined);
    new_next.push(' ');
    extend_chars(&mut new_next, &nb);
    proof {
        assert(sp@ =~= seq![' ']);
        assert(new_next@ =~= next@.take(nl as int) + join(seqs(tw@), seq![' ']) + seq![' ']
            + next@.skip(nl as int));
    }
    Some((new_prev, new_next))
}

/// `backward_move` computed on character vectors.
pub fn backward_move_chars(prev: &[char], next: &[char]) -> (r: Option<(Vec<char>, Vec<char>)>)
    ensures
        r is None <==> backward_move(prev@, next@) is None,
        r matches Some((a, b)) ==> backward_move(prev@, next@) == Some((a@, b@)),
{
    let pl = label_len_chars(prev);
    let nl = label_len_chars(next);
    let pb = slice_sub(prev, pl, prev.len());
    let nb = slice_sub(next, nl, next.len());
    if is_blank(&pb) || is_blank(&nb) {
        return None;
    }
    if ends_sentence_chars(prev) {
        return None;
    }
    let q = match first_term_chars(&nb) {
        Some(q) => q,
        None => {
            return None;
        },
    };
    let lead_raw = slice_sub(&nb, 0, q + 1);
    let leading = trim_chars(&lead_raw);
    let rest_raw = slice_sub(&nb, q + 1, nb.len());
    let rest = trim_start_chars(&rest_raw);
    let lw = split_whitespace(&leading);
    if lw.len() == 0 || lw.len() > BOUNDARY_FRAGMENT_MAX_WORDS || rest.len() == 0 {
        return None;
    }
    let mut new_prev = slice_sub(prev, 0, pl);
    let pbt = trim_end_chars(&pb);
    extend_chars(&mut new_prev, &pbt);
    new_prev.push(' ');
    extend_chars(&mut new_prev, &leading);
    let mut new_next = slice_sub(next, 0, nl);
    extend_chars(&mut new_next, &rest);
    proof {
        assert(new_prev@ =~= prev@.take(pl as int) + trim_end(prev@.skip(pl as int)) + seq![' ']
            + leading@);
    }
    Some((new_prev, new_next))
}

/// `repetition_signal` computed on character vectors.
pub fn repetition_signal_chars(prev: &[char], next: &[char]) -> (b: bool)
    ensures
        b == repetition_signal(prev@, next@),
{
    let pl = label_len_chars(prev);
    let nl = label_len_chars(next);
    let pb = slice_sub(prev, pl, prev.len());
    let nb = slice_sub(next, nl, next.len());
    let p = match last_term_chars(&pb) {
        Some(p) => p,
        None => {
            return false;
        },
    };
    let q = match first_term_chars(&nb) {
        Some(q) => q,
        None => {
            return false;
        },
    };
    let after = slice_sub(&pb, p + 1, pb.len());
    let trailing = trim_chars(&after);
    let lead_raw = slice_sub(&nb, 0, q);
    let leading = trim_chars(&lead_raw);
    if trailing.len() == 0 || leading.len() == 0 {
        return false;
    }
    let zone = slice_sub(&pb, 0, p + 1);
    let zone_s = string_of(&zone);
    let zone_l = lowercase_str(zone_s.as_str());
    let zone_lc = chars_of(zone_l.as_str());
    let mut combined = copy_chars(&trailing);
    combined.push(' ');
    extend_chars(&mut combined, &leading);
    assert(combined@ =~= trailing@ + seq![' '] + leading@);
    let comb_s = string_of(&combined);
    let comb_l = lowercase_str(comb_s.as_str());
    let comb_lc = chars_of(comb_l.as_str());
    contains_chars(&zone_lc, &comb_lc)
}

/// Move the next speaker's sentence-opening 1–3 words off the end of `prev`
/// onto the front of `next` (see `forward_move` for when this applies).
pub fn forward_move_trailing(prev: &str, next: &str) -> (r: Option<(String, String)>)
    ensures
        r is None <==> forward_move(prev@, next@) is None,
        r matches Some((a, b)) ==> forward_move(prev@, next@) == Some((a@, b@)),
{
    let p = chars_of(prev);
    let n = chars_of(next);
    match forward_move_chars(&p, &n) {
        Some((a, b)) => Some((string_of(&a), string_of(&b))),
        None => None,
    }
}

/// Move the previous speaker's sentence-closing 1–3 words off the front of
/// `next` onto the end of `prev` (see `backward_move` for when this applies).
pub fn backward_move_leading(prev: &str, next: &str) -> (r: Option<(String, String)>)
    ensures
        r is None <==> backward_move(prev@, next@) is None,
        r matches Some((a, b)) ==> backward_move(prev@, next@) == Some((a@, b@)),
{
    let p = chars_of(prev);
    let n = chars_of(next);
    match backward_move_chars(&p, &n) {
        Some((a, b)) => Some((string_of(&a), string_of(&b))),
        None => None,
    }
}

/// Whether the phrase straddling the boundary between `prev` and `next`
/// already occurs earlier in `prev` — a stutter that makes the backward move
/// the right repair.
pub fn has_repetition_signal(prev: &str, next: &str) -> (b: bool)
    ensures
        b == repetition_signal(prev@, next@),
{
    let p = chars_of(prev);
    let n = chars_of(next);
    repetition_signal_chars(&p, &n)
}

// ---------------------------------------------------------------------------
// merge_run_on_sentences
// ---------------------------------------------------------------------------

/// One step of the merge: fold `line` into the lines merged so far.
pub open spec fn merge_step(merged: Seq<Seq<char>>, line: Seq<char>) -> Seq<Seq<char>> {
    if merged.len() == 0 {
        seq![line]
    } else {
        let prev = merged.last();
        let f = forward_move(prev, line);
        let b = backward_move(prev, line);
        let chosen = if f is Some && b is Some {
            if repetition_signal(prev, line) {
                b
            } else {
                f
            }
        } else if f is Some {
            f
        } else {
            b
        };
        match chosen {
            Some((np, nn)) => merged.drop_last().push(np).push(nn),
            None => if !ends_sentence_spec(prev) && starts_lowercase_spec(line) {
                merged.drop_last().push(prev + seq![' '] + line_body(line))
            } else {
                merged.push(line)
            },
        }
    }
}

/// `lines` merged front to back.
pub open spec fn merge_lines(lines: Seq<Seq<char>>) -> Seq<Seq<char>>
    decreases lines.len(),
{
    if lines.len() == 0 {
        seq![]
    } else {
        merge_step(merge_lines(lines.drop_last()), lines.last())
    }
}

/// The text `merge_run_on_sentences` returns for `text`.
pub open spec fn merge_run_on(text: Seq<char>) -> Seq<char> {
    join(merge_lines(split_on(text, '\n')), seq!['\n'])
}

/// `merge_run_on_sentences` on a character vector.
pub fn merge_run_on_chars(text: &[char]) -> (r: Vec<char>)
    ensures
        r@ == merge_run_on(text@),
{
    let lines = split_char(text, '\n');
    let mut merged: Vec<Vec<char>> = Vec::new();
    let mut i: usize = 0;
    while i < lines.len()
        invariant
            i <= lines.len(),
            seqs(merged@) == merge_lines(seqs(lines@).take(i as int)),
        decreases lines.len() - i,
    {
        let ghost before = seqs(merged@);
        let line = copy_chars(&lines[i]);
        assert(seqs(lines@).take(i + 1).drop_last() =~= seqs(lines@).take(i as int));
        assert(seqs(lines@).take(i + 1).last() == line@);
        if merged.len() == 0 {
            merged.push(line);
            assert(seqs(merged@) =~= seq![line@]);
        } else {
            let last = merged.len() - 1;
            let prev = copy_chars(&merged[last]);
            assert(before.last() == prev@);
            let f = forward_move_chars(&prev, &line);
            let b = backward_move_chars(&prev, &line);
            let chosen = if f.is_some() && b.is_some() {
                if repetition_signal_chars(&prev, &line) {
                    b
                } else {
                    f
                }
            } else if f.is_some() {
                f
            } else {
                b
            };
            match chosen {
                Some((np, nn)) => {
                    merged.pop();
                    merged.push(np);
                    merged.push(nn);
                    assert(seqs(merged@) =~= before.drop_last().push(np@).push(nn@));
                },
                None => {
                    if !ends_sentence_chars(&prev) && starts_lowercase_chars(&line) {
                        let nl = label_len_chars(&line);
                        let body = slice_sub(&line, nl, line.len());
                        let ghost pv = prev@;
                        let mut joined = prev;
                        joined.push(' ');
                        extend_chars(&mut joined, &body);
                        assert(joined@ =~= pv + seq![' '] + line_body(line@));
                        merged.pop();
                        merged.push(joined);
                        assert(seqs(merged@) =~= before.drop_last().push(
                            before.last() + seq![' '] + line_body(line@),
                        ));
                    } else {
                        merged.push(line);
                        assert(seqs(merged@) =~= before.push(line@));
                    }
                },
            }
        }
        i += 1;
    }
    assert(seqs(lines@).take(lines.len() as int) =~= seqs(lines@));
    let nl: Vec<char> = vec!['\n'];
    assert(nl@ =~= seq!['\n']);
    join_chars(&merged, &nl)
}

/// Heuristic chunk-boundary clean-up over a labelled transcript. At each
/// adjacent pair of lines it tries, in order: a forward move of the next
/// speaker's sentence opening, a backward move of the previous speaker's
/// sentence close (when both apply, the stutter signal picks backward), and
/// otherwise a full merge when the previous line is open and the next starts
/// lowercase (the next line's label is dropped).
pub fn merge_run_on_sentences(text: &str) -> (r: String)
    ensures
        r@ == merge_run_on(text@),
{
    let v = chars_of(text);
    let m = merge_run_on_chars(&v);
    string_of(&m)
}

} // verus!
