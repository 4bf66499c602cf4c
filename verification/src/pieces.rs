//! Relabelling passes over the labelled-piece sequence: absorbing short
//! sandwiched interjections and collapsing text-continuation chains.
use vstd::prelude::*;
use crate::types::{ChunkWord, LabelledPiece};
use crate::labels::{
    first_occ, lemma_first_occ_no_dups, opt_chars, piece_view, piece_views, sat_sub,
    seqs_of_strings, PieceView,
};
use crate::text::{
    chars_eq, chars_of, char_is_lowercase, count_words, is_lowercase, split_ws, trim_end,
    trim_end_chars, trim_start, trim_start_chars, slice_sub,
};

verus! {

// ---------------------------------------------------------------------------
// Short interjections
// ---------------------------------------------------------------------------

/// Most words a piece may hold to count as a short interjection.
pub const BRIDGE_MAX_WORDS: usize = 6;

/// Longest acoustic span (ms) a piece may cover to count as an interjection.
pub const BRIDGE_MAX_DURATION_MS: u64 = 3500;

/// The label of the last labelled piece in `ps`, if any.
pub open spec fn last_label(ps: Seq<PieceView>) -> Option<Seq<char>>
    decreases ps.len(),
{
    if ps.len() == 0 {
        None
    } else if ps.last().label is Some {
        ps.last().label
    } else {
        last_label(ps.drop_last())
    }
}

/// The label of the first labelled piece in `ps`, if any.
pub open spec fn first_label(ps: Seq<PieceView>) -> Option<Seq<char>>
    decreases ps.len(),
{
    if ps.len() == 0 {
        None
    } else if ps[0].label is Some {
        ps[0].label
    } else {
        first_label(ps.drop_first())
    }
}

/// Acoustic span of a piece's words: last end minus first start (saturating).
pub open spec fn span_ms(ws: Seq<ChunkWord>) -> u64 {
    sat_sub(ws.last().end_ms, ws[0].start_ms)
}

/// Whether piece `i` of `ps` is a short interjection sandwiched between two
/// labelled neighbours that agree with each other and differ from it; if so,
/// the neighbours' label.
pub open spec fn bridge_label(ps: Seq<PieceView>, i: int) -> Option<Seq<char>> {
    let p = ps[i];
    let prev = last_label(ps.take(i));
    let next = first_label(ps.skip(i + 1));
    if p.label is Some && split_ws(p.text).len() <= 6 && p.words.len() > 0 && span_ms(p.words)
        <= 3500 && prev is Some && next is Some && prev == next && prev != p.label {
        prev
    } else {
        None
    }
}

/// `ps` after considering pieces `1 .. k` in order (each sees the labels the
/// earlier steps wrote).
pub open spec fn bridge_upto(ps: Seq<PieceView>, k: int) -> Seq<PieceView>
    decreases k,
{
    if k <= 1 {
        ps
    } else {
        let q = bridge_upto(ps, k - 1);
        let i = k - 1;
        match bridge_label(q, i) {
            Some(l) => q.update(i, PieceView { label: Some(l), ..q[i] }),
            None => q,
        }
    }
}

/// What `bridge_short_interjections` leaves: every interior piece considered
/// once, first to last.
pub open spec fn bridge_all(ps: Seq<PieceView>) -> Seq<PieceView> {
    if ps.len() < 3 {
        ps
    } else {
        bridge_upto(ps, ps.len() - 1)
    }
}

fn last_label_exec(ps: &Vec<LabelledPiece>, i: usize) -> (r: Option<String>)
    requires
        i <= ps.len(),
    ensures
        opt_chars(r) == last_label(piece_views(ps@).take(i as int)),
{
    let mut j: usize = i;
    while j > 0 && ps[j - 1].label.is_none()
        invariant
            j <= i <= ps.len(),
            last_label(piece_views(ps@).take(i as int)) == last_label(
                piece_views(ps@).take(j as int),
            ),
        decreases j,
    {
        assert(piece_views(ps@).take(j as int).drop_last() =~= piece_views(ps@).take(j - 1));
        assert(piece_views(ps@).take(j as int).last() == piece_view(ps@[j - 1]));
        j -= 1;
    }
    if j == 0 {
        assert(piece_views(ps@).take(0) =~= Seq::<PieceView>::empty());
        None
    } else {
        assert(piece_views(ps@).take(j as int).last() == piece_view(ps@[j - 1]));
        crate::types::copy_opt_string(&ps[j - 1].label)
    }
}

fn first_label_exec(ps: &Vec<LabelledPiece>, i: usize) -> (r: Option<String>)
    requires
        i <= ps.len(),
    ensures
        opt_chars(r) == first_label(piece_views(ps@).skip(i as int)),
{
    let mut j: usize = i;
    while j < ps.len() && ps[j].label.is_none()
        invariant
            i <= j <= ps.len(),
            first_label(piece_views(ps@).skip(i as int)) == first_label(
                piece_views(ps@).skip(j as int),
            ),
        decreases ps.len() - j,
    {
        assert(piece_views(ps@).skip(j as int).drop_first() =~= piece_views(ps@).skip(j + 1));
        assert(piece_views(ps@).skip(j as int)[0] == piece_view(ps@[j as int]));
        j += 1;
    }
    if j == ps.len() {
        assert(piece_views(ps@).skip(j as int) =~= Seq::<PieceView>::empty());
        None
    } else {
        assert(piece_views(ps@).skip(j as int)[0] == piece_view(ps@[j as int]));
        crate::types::copy_opt_string(&ps[j].label)
    }
}

fn opt_eq(a: &Option<String>, b: &Option<String>) -> (r: bool)
    ensures
        r == (opt_chars(*a) == opt_chars(*b)),
{
    match (a, b) {
        (Some(x), Some(y)) => {
            let xv = chars_of(x.as_str());
            let yv = chars_of(y.as_str());
            chars_eq(&xv, &yv)
        },
        (None, None) => true,
        _ => false,
    }
}

fn text_words(p: &LabelledPiece) -> (n: usize)
    ensures
        n == split_ws(p.text@).len(),
{
    let v = chars_of(p.text.as_str());
    count_words(&v)
}

/// Relabel piece `i` with `l`, leaving everything else as it was.
fn set_label(ps: &mut Vec<LabelledPiece>, i: usize, l: Option<String>)
    requires
        i < old(ps).len(),
    ensures
        final(ps).len() == old(ps).len(),
        piece_views(final(ps)@) == piece_views(old(ps)@).update(
            i as int,
            PieceView { label: opt_chars(l), ..piece_views(old(ps)@)[i as int] },
        ),
{
    let ghost before = piece_views(ps@);
    ps[i].label = l;
    assert(piece_views(ps@) =~= before.update(
        i as int,
        PieceView { label: opt_chars(l), ..before[i as int] },
    ));
}

/// Collapse short cross-speaker interjections into the surrounding speaker:
/// an interior piece with a label, at most `BRIDGE_MAX_WORDS` words, word
/// timings spanning at most `BRIDGE_MAX_DURATION_MS`, whose nearest labelled
/// neighbours on both sides share a label different from its own, takes that
/// label. Pieces are considered first to last.
pub fn bridge_short_interjections(pieces: &mut Vec<LabelledPiece>)
    ensures
        piece_views(final(pieces)@) == bridge_all(piece_views(old(pieces)@)),
{
    let ghost orig = piece_views(pieces@);
    if pieces.len() < 3 {
        return;
    }
    let n = pieces.len();
    let mut i: usize = 1;
    while i < n - 1
        invariant
            n == pieces.len(),
            n >= 3,
            1 <= i <= n - 1,
            orig.len() == n,
            piece_views(pieces@) == bridge_upto(orig, i as int),
        decreases n - 1 - i,
    {
        let ghost q = piece_views(pieces@);
        assert(q[i as int] == piece_view(pieces@[i as int]));
        let mut relabel: Option<String> = None;
        if pieces[i].label.is_some() && text_words(&pieces[i]) <= BRIDGE_MAX_WORDS
            && pieces[i].words.len() > 0 {
            let wl = pieces[i].words.len();
            let span = pieces[i].words[wl - 1].end_ms.saturating_sub(pieces[i].words[0].start_ms);
            if span <= BRIDGE_MAX_DURATION_MS {
                let prev = last_label_exec(pieces, i);
                let next = first_label_exec(pieces, i + 1);
                if prev.is_some() && next.is_some() && opt_eq(&prev, &next) && !opt_eq(
                    &prev,
                    &pieces[i].label,
                ) {
                    relabel = prev;
                }
            }
        }
        assert(opt_chars(relabel) == bridge_label(q, i as int));
        if relabel.is_some() {
            set_label(pieces, i, relabel);
        }
        i += 1;
    }
}

// ---------------------------------------------------------------------------
// Text-continuation chains
// ---------------------------------------------------------------------------

/// Most pieces a continuation chain may span.
pub const CONTINUATION_CHAIN_MAX_LEN: usize = 6;

/// Closing quotes and brackets `piece_ends_terminator` looks past.
pub open spec fn is_close_mark(c: char) -> bool {
    c == '"' || c == '\'' || c == ')' || c == ']' || c == '»' || c == '”' || c == '’'
}

/// `s` without its trailing `…` characters.
pub open spec fn strip_end_ellipsis_chars(s: Seq<char>) -> Seq<char>
    decreases s.len(),
{
    if s.len() > 0 && s.last() == '…' {
        strip_end_ellipsis_chars(s.drop_last())
    } else {
        s
    }
}

/// `s` without its trailing closing quotes and brackets.
pub open spec fn strip_end_close_marks(s: Seq<char>) -> Seq<char>
    decreases s.len(),
{
    if s.len() > 0 && is_close_mark(s.last()) {
        strip_end_close_marks(s.drop_last())
    } else {
        s
    }
}

/// `s` ends with `...`.
pub open spec fn ends_with_dots(s: Seq<char>) -> bool {
    s.len() >= 3 && s[s.len() - 1] == '.' && s[s.len() - 2] == '.' && s[s.len() - 3] == '.'
}

/// One round of ellipsis removal: trailing `…`, then one trailing `...`, each
/// followed by trailing whitespace.
pub open spec fn ellipsis_round(t: Seq<char>) -> Seq<char> {
    let a = trim_end(strip_end_ellipsis_chars(t));
    if ends_with_dots(a) {
        trim_end(a.take(a.len() - 3))
    } else {
        a
    }
}

/// Prefix facts of the stripping helpers.
pub proof fn lemma_strip_prefixes(t: Seq<char>)
    ensures
        strip_end_ellipsis_chars(t).is_prefix_of(t),
        strip_end_close_marks(t).is_prefix_of(t),
        ellipsis_round(t).is_prefix_of(t),
    decreases t.len(),
{
    if t.len() > 0 {
        lemma_strip_prefixes(t.drop_last());
    }
    let e = strip_end_ellipsis_chars(t);
    crate::text::lemma_trim_end_shape(e);
    let a = trim_end(e);
    if ends_with_dots(a) {
        crate::text::lemma_trim_end_shape(a.take(a.len() - 3));
    }
}

/// Ellipsis rounds repeated until nothing changes.
pub open spec fn strip_ellipses(t: Seq<char>) -> Seq<char>
    decreases t.len(),
{
    let r = ellipsis_round(t);
    if r.len() >= t.len() {
        t
    } else {
        proof {
            lemma_strip_prefixes(t);
        }
        strip_ellipses(r)
    }
}

/// Whether a piece's text ends a sentence: after trailing whitespace and
/// trailing ellipses (`…` / `...`, which mark trailing off) and then closing
/// quotes or brackets, the last character is one of `. ! ? : ;`.
pub open spec fn ends_terminator(text: Seq<char>) -> bool {
    let core = strip_end_close_marks(strip_ellipses(trim_end(text)));
    core.len() > 0 && (core.last() == '.' || core.last() == '!' || core.last() == '?'
        || core.last() == ':' || core.last() == ';')
}

fn strip_while_end_ellipsis(v: &Vec<char>) -> (r: Vec<char>)
    ensures
        r@ == strip_end_ellipsis_chars(v@),
{
    let mut j = v.len();
    assert(v@.take(j as int) =~= v@);
    while j > 0 && v[j - 1] == '…'
        invariant
            j <= v.len(),
            strip_end_ellipsis_chars(v@) == strip_end_ellipsis_chars(v@.take(j as int)),
        decreases j,
    {
        assert(v@.take(j as int).drop_last() =~= v@.take(j - 1));
        j -= 1;
    }
    slice_sub(v, 0, j)
}

fn strip_while_end_close(v: &Vec<char>) -> (r: Vec<char>)
    ensures
        r@ == strip_end_close_marks(v@),
{
    let mut j = v.len();
    assert(v@.take(j as int) =~= v@);
    while j > 0 && (v[j - 1] == '"' || v[j - 1] == '\'' || v[j - 1] == ')' || v[j - 1] == ']'
        || v[j - 1] == '»' || v[j - 1] == '”' || v[j - 1] == '’')
        invariant
            j <= v.len(),
            strip_end_close_marks(v@) == strip_end_close_marks(v@.take(j as int)),
        decreases j,
    {
        assert(v@.take(j as int).drop_last() =~= v@.take(j - 1));
        j -= 1;
    }
    slice_sub(v, 0, j)
}

fn ellipsis_round_exec(t: &Vec<char>) -> (r: Vec<char>)
    ensures
        r@ == ellipsis_round(t@),
{
    let e = strip_while_end_ellipsis(t);
    let a = trim_end_chars(&e);
    let n = a.len();
    if n >= 3 && a[n - 1] == '.' && a[n - 2] == '.' && a[n - 3] == '.' {
        let b = slice_sub(&a, 0, n - 3);
        trim_end_chars(&b)
    } else {
        a
    }
}

fn ends_terminator_chars(text: &Vec<char>) -> (b: bool)
    ensures
        b == ends_terminator(text@),
{
    let mut t = trim_end_chars(text);
    loop
        invariant
            strip_ellipses(trim_end(text@)) == strip_ellipses(t@),
        ensures
            strip_ellipses(trim_end(text@)) == t@,
        decreases t.len(),
    {
        let r = ellipsis_round_exec(&t);
        proof {
            lemma_strip_prefixes(t@);
        }
        if r.len() >= t.len() {
            assert(strip_ellipses(t@) == t@);
            break;
        }
        t = r;
    }
    let core = strip_while_end_close(&t);
    let n = core.len();
    n > 0 && (core[n - 1] == '.' || core[n - 1] == '!' || core[n - 1] == '?' || core[n - 1]
        == ':' || core[n - 1] == ';')
}

/// Whether a piece's text ends a sentence (trailing ellipses do not count:
/// they mark trailing off, not a sentence end).
pub fn piece_ends_terminator(text: &str) -> (b: bool)
    ensures
        b == ends_terminator(text@),
{
    let v = chars_of(text);
    ends_terminator_chars(&v)
}

/// Whether a piece's text opens with a continuation cue: a leading `...` or
/// `…`, or a lowercase letter.
pub open spec fn starts_continuation(text: Seq<char>) -> bool {
    let t = trim_start(text);
    ||| (t.len() >= 3 && t[0] == '.' && t[1] == '.' && t[2] == '.')
    ||| (t.len() >= 1 && t[0] == '…')
    ||| (t.len() >= 1 && char_is_lowercase(t[0]))
}

fn starts_continuation_chars(text: &Vec<char>) -> (b: bool)
    ensures
        b == starts_continuation(text@),
{
    let t = trim_start_chars(text);
    if t.len() >= 3 && t[0] == '.' && t[1] == '.' && t[2] == '.' {
        return true;
    }
    if t.len() >= 1 && t[0] == '…' {
        return true;
    }
    t.len() >= 1 && is_lowercase(t[0])
}

/// Whether a piece's text opens with a continuation cue (lowercase letter or
/// leading ellipsis).
pub fn piece_starts_continuation(text: &str) -> (b: bool)
    ensures
        b == starts_continuation(text@),
{
    let v = chars_of(text);
    starts_continuation_chars(&v)
}

// ---------------------------------------------------------------------------
// Collapsing continuation chains
// ---------------------------------------------------------------------------

/// Piece `k` flows on into piece `k + 1`: it ends without a sentence
/// terminator and the next one opens with a continuation cue.
pub open spec fn flows_on(ps: Seq<PieceView>, k: int) -> bool {
    !ends_terminator(ps[k].text) && starts_continuation(ps[k + 1].text)
}

/// Last index of the chain that starts at `i`, having reached `e`: a chain
/// grows while the current piece flows on and it spans fewer than
/// `CONTINUATION_CHAIN_MAX_LEN` pieces.
pub open spec fn chain_end_from(ps: Seq<PieceView>, i: int, e: int) -> int
    decreases ps.len() - e,
{
    if e + 1 < ps.len() && e - i + 1 < 6 && flows_on(ps, e) {
        chain_end_from(ps, i, e + 1)
    } else {
        e
    }
}

/// Last index of the continuation chain that starts at piece `i`.
pub open spec fn chain_end(ps: Seq<PieceView>, i: int) -> int {
    chain_end_from(ps, i, i)
}

pub proof fn lemma_chain_end_from(ps: Seq<PieceView>, i: int, e: int)
    requires
        0 <= i <= e < ps.len(),
        e - i < 6,
    ensures
        e <= chain_end_from(ps, i, e) < ps.len(),
        chain_end_from(ps, i, e) - i < 6,
    decreases ps.len() - e,
{
    if e + 1 < ps.len() && e - i + 1 < 6 && flows_on(ps, e) {
        lemma_chain_end_from(ps, i, e + 1);
    }
}

/// The labels carried by pieces `i ..= e`, in order, unlabelled pieces skipped.
pub open spec fn chain_labels(ps: Seq<PieceView>, i: int, e: int) -> Seq<Seq<char>>
    decreases e - i + 1,
{
    if e < i {
        seq![]
    } else {
        let p = chain_labels(ps, i, e - 1);
        match ps[e].label {
            Some(l) => p.push(l),
            None => p,
        }
    }
}

/// Total word count of the pieces among `i ..= e` labelled `l`.
pub open spec fn label_words(ps: Seq<PieceView>, i: int, e: int, l: Seq<char>) -> int
    decreases e - i + 1,
{
    if e < i {
        0
    } else {
        label_words(ps, i, e - 1, l) + if ps[e].label == Some(l) {
            split_ws(ps[e].text).len() as int
        } else {
            0
        }
    }
}

/// Among `ls`, the label with most words in `i ..= e`; of equals, the
/// earliest in `ls`.
pub open spec fn best_of(ps: Seq<PieceView>, i: int, e: int, ls: Seq<Seq<char>>) -> Seq<char>
    decreases ls.len(),
{
    if ls.len() <= 1 {
        ls[0]
    } else {
        let b = best_of(ps, i, e, ls.drop_last());
        if label_words(ps, i, e, ls.last()) > label_words(ps, i, e, b) {
            ls.last()
        } else {
            b
        }
    }
}

/// The label a disputed chain `i ..= e` takes: the label the pieces just
/// before and just after the chain share, when they share one that occurs
/// in the chain; otherwise the label carrying most words (ties go to the
/// label that speaks first in the chain).
pub open spec fn chain_winner(ps: Seq<PieceView>, i: int, e: int) -> Seq<char> {
    let ds = first_occ(chain_labels(ps, i, e));
    let pre = if i > 0 { ps[i - 1].label } else { None::<Seq<char>> };
    let post = if e + 1 < ps.len() { ps[e + 1].label } else { None::<Seq<char>> };
    if pre is Some && pre == post && ds.contains(pre.unwrap()) {
        pre.unwrap()
    } else {
        best_of(ps, i, e, ds)
    }
}

/// `ps` with every labelled piece among `i ..= e` relabelled `w`.
pub open spec fn relabel_range(ps: Seq<PieceView>, i: int, e: int, w: Seq<char>) -> Seq<PieceView> {
    Seq::new(
        ps.len(),
        |k: int|
            if i <= k <= e && ps[k].label is Some {
                PieceView { label: Some(w), ..ps[k] }
            } else {
                ps[k]
            },
    )
}

/// The effect of the chain starting at `i`: when it spans several pieces
/// and carries at least two distinct labels, all its labelled pieces take
/// the winner's label.
pub open spec fn absorb_step(ps: Seq<PieceView>, i: int) -> Seq<PieceView> {
    let e = chain_end(ps, i);
    if e > i && first_occ(chain_labels(ps, i, e)).len() >= 2 {
        relabel_range(ps, i, e, chain_winner(ps, i, e))
    } else {
        ps
    }
}

/// Chains taken left to right from piece `i`; each starts right after the
/// previous one ends and sees the labels earlier chains left.
pub open spec fn absorb_from(ps: Seq<PieceView>, i: int) -> Seq<PieceView>
    decreases ps.len() - i,
{
    if i < 0 || i >= ps.len() {
        ps
    } else {
        proof {
            lemma_chain_end_from(ps, i, i);
        }
        absorb_from(absorb_step(ps, i), chain_end(ps, i) + 1)
    }
}

/// What `absorb_text_continuation_chains` leaves.
pub open spec fn absorb_all(ps: Seq<PieceView>) -> Seq<PieceView> {
    absorb_from(ps, 0)
}

fn chain_end_exec(pieces: &Vec<LabelledPiece>, i: usize) -> (e: usize)
    requires
        i < pieces.len(),
    ensures
        e == chain_end(piece_views(pieces@), i as int),
        i <= e < pieces.len(),
        e - i < 6,
{
    let ghost ps = piece_views(pieces@);
    let mut e = i;
    while e + 1 < pieces.len() && e - i + 1 < CONTINUATION_CHAIN_MAX_LEN && !piece_ends_terminator(
        pieces[e].text.as_str(),
    ) && piece_starts_continuation(pieces[e + 1].text.as_str())
        invariant
            i <= e < pieces.len(),
            e - i < 6,
            ps == piece_views(pieces@),
            chain_end_from(ps, i as int, i as int) == chain_end_from(ps, i as int, e as int),
        decreases pieces.len() - e,
    {
        assert(ps[e as int].text == pieces@[e as int].text@);
        assert(ps[e + 1].text == pieces@[e + 1].text@);
        e += 1;
    }
    proof {
        if e + 1 < pieces.len() && e - i + 1 < 6 {
            assert(ps[e as int].text == pieces@[e as int].text@);
            assert(ps[e + 1].text == pieces@[e + 1].text@);
        }
    }
    e
}

/// Where `sid` first stands in `ids`, if it does.
fn index_of_id(ids: &Vec<String>, sid: &String) -> (r: Option<usize>)
    ensures
        match r {
            Some(j) => j < ids.len() && ids@[j as int]@ == sid@,
            None => !seqs_of_strings(ids@).contains(sid@),
        },
{
    let key = chars_of(sid.as_str());
    let mut j: usize = 0;
    while j < ids.len()
        invariant
            j <= ids.len(),
            key@ == sid@,
            forall|k: int| 0 <= k < j ==> ids@[k]@ != sid@,
        decreases ids.len() - j,
    {
        let c = chars_of(ids[j].as_str());
        if chars_eq(&c, &key) {
            return Some(j);
        }
        j += 1;
    }
    assert forall|k: int| 0 <= k < ids.len() implies seqs_of_strings(ids@)[k] != sid@ by {}
    None
}

proof fn lemma_label_words_absent(ps: Seq<PieceView>, i: int, e: int, l: Seq<char>)
    requires
        !chain_labels(ps, i, e).contains(l),
    ensures
        label_words(ps, i, e, l) == 0,
    decreases e - i + 1,
{
    if e >= i {
        let p = chain_labels(ps, i, e - 1);
        if p.contains(l) {
            let j = choose|j: int| 0 <= j < p.len() && p[j] == l;
            match ps[e].label {
                Some(m) => {
                    assert(p.push(m)[j] == l);
                },
                None => {},
            }
        }
        match ps[e].label {
            Some(m) => {
                assert(p.push(m)[p.len() as int] == m);
            },
            None => {},
        }
        lemma_label_words_absent(ps, i, e - 1, l);
    }
}

/// The distinct labels of the chain `i ..= e`, in order, and their word counts.
fn chain_tally(pieces: &Vec<LabelledPiece>, i: usize, e: usize) -> (r: (Vec<String>, Vec<u128>))
    requires
        i <= e < pieces.len(),
        e - i < 6,
    ensures
        seqs_of_strings(r.0@) == first_occ(chain_labels(piece_views(pieces@), i as int, e as int)),
        r.1.len() == r.0.len(),
        forall|j: int|
            0 <= j < r.1.len() ==> r.1@[j] == label_words(
                piece_views(pieces@),
                i as int,
                e as int,
                #[trigger] r.0@[j]@,
            ),
{
    let ghost ps = piece_views(pieces@);
    let mut ds: Vec<String> = Vec::new();
    let mut counts: Vec<u128> = Vec::new();
    let mut k = i;
    while k <= e
        invariant
            i <= k <= e + 1,
            e < pieces.len(),
            e - i < 6,
            ps == piece_views(pieces@),
            seqs_of_strings(ds@) == first_occ(chain_labels(ps, i as int, k - 1)),
            counts.len() == ds.len(),
            forall|j: int|
                0 <= j < counts.len() ==> counts@[j] == label_words(
                    ps,
                    i as int,
                    k - 1,
                    #[trigger] ds@[j]@,
                ),
            forall|j: int| 0 <= j < counts.len() ==> #[trigger] counts@[j] <= (k - i) * 0x1_0000_0000_0000_0000,
        decreases e + 1 - k,
    {
        let ghost prev_ds = seqs_of_strings(ds@);
        let ghost prev_counts = counts@;
        let ghost pl = chain_labels(ps, i as int, k - 1);
        proof {
            lemma_first_occ_no_dups(pl);
        }
        assert(ps[k as int] == piece_view(pieces@[k as int]));
        match &pieces[k].label {
            Some(l) => {
                let wc = text_words(&pieces[k]);
                let ghost cl = chain_labels(ps, i as int, k as int);
                assert(cl == pl.push(l@));
                assert(cl.drop_last() =~= pl);
                match index_of_id(&ds, l) {
                    Some(j) => {
                        assert(prev_ds[j as int] == l@);
                        assert(first_occ(cl) == prev_ds);
                        let c = counts[j];
                        counts.set(j, c + wc as u128);
                        assert forall|m: int| 0 <= m < counts.len() implies counts@[m] == label_words(
                            ps,
                            i as int,
                            k as int,
                            #[trigger] ds@[m]@,
                        ) by {
                            if m != j {
                                assert(prev_ds[m] == ds@[m]@);
                                assert(prev_ds[m] != prev_ds[j as int]);
                            }
                        }
                    },
                    None => {
                        assert(first_occ(cl) == prev_ds.push(l@));
                        proof {
                            lemma_label_words_absent(ps, i as int, k - 1, l@);
                        }
                        ds.push(l.clone());
                        counts.push(wc as u128);
                        assert(seqs_of_strings(ds@) =~= prev_ds.push(l@));
                        assert forall|m: int| 0 <= m < counts.len() implies counts@[m] == label_words(
                            ps,
                            i as int,
                            k as int,
                            #[trigger] ds@[m]@,
                        ) by {
                            if m < prev_counts.len() {
                                assert(prev_ds[m] == ds@[m]@);
                                assert(prev_ds.contains(ds@[m]@));
                            }
                        }
                    },
                }
            },
            None => {
                assert(chain_labels(ps, i as int, k as int) == pl);
            },
        }
        k += 1;
    }
    (ds, counts)
}

/// Relabel every labelled piece among `i ..= e` as `w`.
fn relabel_chain(pieces: &mut Vec<LabelledPiece>, i: usize, e: usize, w: &String)
    requires
        i <= e < old(pieces).len(),
    ensures
        final(pieces).len() == old(pieces).len(),
        piece_views(final(pieces)@) == relabel_range(piece_views(old(pieces)@), i as int, e as int, w@),
{
    let ghost ps = piece_views(pieces@);
    let mut k = i;
    while k <= e
        invariant
            i <= k <= e + 1,
            e < pieces.len(),
            ps.len() == pieces.len(),
            forall|m: int|
                0 <= m < pieces.len() ==> #[trigger] piece_views(pieces@)[m] == if i <= m < k
                    && ps[m].label is Some {
                    PieceView { label: Some(w@), ..ps[m] }
                } else {
                    ps[m]
                },
        decreases e + 1 - k,
    {
        if pieces[k].label.is_some() {
            let ghost before = piece_views(pieces@);
            assert(before[k as int] == piece_view(pieces@[k as int]));
            set_label(pieces, k, Some(w.clone()));
        }
        k += 1;
    }
    assert(piece_views(pieces@) =~= relabel_range(ps, i as int, e as int, w@));
}

/// Collapse text-continuation chains: runs of consecutive pieces (at most
/// `CONTINUATION_CHAIN_MAX_LEN`) in which each piece ends without a sentence
/// terminator and the next opens with a continuation cue. When such a chain
/// carries two or more labels, every labelled piece in it takes one winner:
/// the label shared by the pieces just before and just after the chain if
/// that label occurs in the chain, else the label with the most words.
pub fn absorb_text_continuation_chains(pieces: &mut Vec<LabelledPiece>)
    ensures
        final(pieces).len() == old(pieces).len(),
        piece_views(final(pieces)@) == absorb_all(piece_views(old(pieces)@)),
{
    let ghost orig = piece_views(pieces@);
    let n = pieces.len();
    let mut i: usize = 0;
    while i < n
        invariant
            n == pieces.len(),
            i <= n,
            absorb_all(orig) == absorb_from(piece_views(pieces@), i as int),
        decreases n - i,
    {
        let ghost ps = piece_views(pieces@);
        let e = chain_end_exec(pieces, i);
        if e > i {
            let (ds, counts) = chain_tally(pieces, i, e);
            if ds.len() >= 2 {
                let mut best: usize = 0;
                let mut j: usize = 1;
                while j < ds.len()
                    invariant
                        1 <= j <= ds.len(),
                        best < j,
                        counts.len() == ds.len(),
                        ds@[best as int]@ == best_of(ps, i as int, e as int, seqs_of_strings(ds@).take(j as int)),
                        forall|m: int|
                            0 <= m < counts.len() ==> counts@[m] == label_words(
                                ps,
                                i as int,
                                e as int,
                                #[trigger] ds@[m]@,
                            ),
                    decreases ds.len() - j,
                {
                    assert(seqs_of_strings(ds@).take(j + 1).drop_last() =~= seqs_of_strings(ds@).take(j as int));
                    if counts[j] > counts[best] {
                        best = j;
                    }
                    j += 1;
                }
                assert(seqs_of_strings(ds@).take(ds.len() as int) =~= seqs_of_strings(ds@));
                let pre = if i > 0 {
                    crate::types::copy_opt_string(&pieces[i - 1].label)
                } else {
                    None
                };
                let post = if e + 1 < n {
                    crate::types::copy_opt_string(&pieces[e + 1].label)
                } else {
                    None
                };
                proof {
                    if i > 0 {
                        assert(ps[i - 1] == piece_view(pieces@[i - 1]));
                    }
                    if e + 1 < n {
                        assert(ps[e + 1] == piece_view(pieces@[e + 1]));
                    }
                }
                let mut winner = ds[best].clone();
                match &pre {
                    Some(p) => {
                        if opt_eq(&pre, &post) {
                            match index_of_id(&ds, p) {
                                Some(jj) => {
                                    assert(seqs_of_strings(ds@)[jj as int] == p@);
                                    winner = p.clone();
                                },
                                None => {},
                            }
                        }
                    },
                    None => {},
                }
                proof {
                    let dv = seqs_of_strings(ds@);
                    assert(dv[best as int] == ds@[best as int]@);
                    if pre.is_some() && opt_chars(pre) == opt_chars(post) && dv.contains(
                        pre.unwrap()@,
                    ) {
                        assert(winner@ == pre.unwrap()@);
                    } else {
                        assert(winner@ == dv[best as int]);
                    }
                    assert(winner@ == chain_winner(ps, i as int, e as int));
                }
                relabel_chain(pieces, i, e, &winner);
                assert(piece_views(pieces@) == absorb_step(ps, i as int));
            } else {
                assert(piece_views(pieces@) == absorb_step(ps, i as int));
            }
        } else {
            assert(piece_views(pieces@) == absorb_step(ps, i as int));
        }
        assert(absorb_from(ps, i as int) == absorb_from(absorb_step(ps, i as int), e + 1));
        i = e + 1;
    }
}

/// Bridging relabels pieces and never adds or removes one.
pub proof fn lemma_bridge_all_len(ps: Seq<PieceView>)
    ensures
        bridge_all(ps).len() == ps.len(),
{
    if ps.len() >= 3 {
        lemma_bridge_upto_len(ps, ps.len() - 1);
    }
}

proof fn lemma_bridge_upto_len(ps: Seq<PieceView>, k: int)
    requires
        k <= ps.len(),
    ensures
        bridge_upto(ps, k).len() == ps.len(),
    decreases k,
{
    if k > 1 {
        lemma_bridge_upto_len(ps, k - 1);
    }
}

// ---------------------------------------------------------------------------
// Laws
// ---------------------------------------------------------------------------

/// Two piece sequences with the same length, texts and words.
pub open spec fn same_texts(a: Seq<PieceView>, b: Seq<PieceView>) -> bool {
    &&& a.len() == b.len()
    &&& forall|i: int| 0 <= i < a.len() ==> #[trigger] a[i].text == b[i].text && a[i].words == b[i].words
}

proof fn lemma_bridge_upto_texts(ps: Seq<PieceView>, k: int)
    requires
        k <= ps.len(),
    ensures
        same_texts(bridge_upto(ps, k), ps),
    decreases k,
{
    if k > 1 {
        lemma_bridge_upto_texts(ps, k - 1);
        let q = bridge_upto(ps, k - 1);
        let r = bridge_upto(ps, k);
        assert forall|i: int| 0 <= i < r.len() implies #[trigger] r[i].text == ps[i].text && r[i].words
            == ps[i].words by {
            assert(q[i].text == ps[i].text);
        }
    }
}

/// Bridging short interjections only relabels: the pieces keep their
/// number, order, text and word timings.
pub proof fn law_bridge_only_relabels(ps: Seq<PieceView>)
    ensures
        same_texts(bridge_all(ps), ps),
{
    if ps.len() >= 3 {
        lemma_bridge_upto_texts(ps, ps.len() - 1);
    }
}

proof fn lemma_absorb_step_texts(ps: Seq<PieceView>, i: int)
    requires
        0 <= i < ps.len(),
    ensures
        same_texts(absorb_step(ps, i), ps),
{
}

proof fn lemma_absorb_from_texts(ps: Seq<PieceView>, i: int)
    ensures
        same_texts(absorb_from(ps, i), ps),
    decreases ps.len() - i,
{
    if 0 <= i < ps.len() {
        lemma_chain_end_from(ps, i, i);
        let q = absorb_step(ps, i);
        lemma_absorb_step_texts(ps, i);
        lemma_absorb_from_texts(q, chain_end(ps, i) + 1);
        let r = absorb_from(q, chain_end(ps, i) + 1);
        assert forall|j: int| 0 <= j < r.len() implies #[trigger] r[j].text == ps[j].text && r[j].words
            == ps[j].words by {
            assert(r[j].text == q[j].text && q[j].text == ps[j].text);
        }
    }
}

/// `a` and `b` leave the same pieces unlabelled.
pub open spec fn same_unlabelled(a: Seq<PieceView>, b: Seq<PieceView>) -> bool {
    &&& a.len() == b.len()
    &&& forall|i: int| 0 <= i < a.len() ==> (#[trigger] a[i].label is None) == (b[i].label is None)
}

proof fn lemma_absorb_from_unlabelled(ps: Seq<PieceView>, i: int)
    ensures
        same_unlabelled(absorb_from(ps, i), ps),
    decreases ps.len() - i,
{
    if 0 <= i < ps.len() {
        lemma_chain_end_from(ps, i, i);
        let q = absorb_step(ps, i);
        assert(same_unlabelled(q, ps));
        lemma_absorb_from_unlabelled(q, chain_end(ps, i) + 1);
        let r = absorb_from(q, chain_end(ps, i) + 1);
        assert forall|j: int| 0 <= j < r.len() implies (#[trigger] r[j].label is None) == (ps[j].label is None) by {
            assert((r[j].label is None) == (q[j].label is None));
        }
    }
}

/// Collapsing continuation chains only relabels: the pieces keep their
/// number, order, text and word timings, and exactly the pieces that had no
/// label still have none (a chain's winner goes only to labelled pieces).
pub proof fn law_absorb_only_relabels(ps: Seq<PieceView>)
    ensures
        same_texts(absorb_all(ps), ps),
        same_unlabelled(absorb_all(ps), ps),
{
    lemma_absorb_from_texts(ps, 0);
    lemma_absorb_from_unlabelled(ps, 0);
}

proof fn lemma_chain_end_texts(ps: Seq<PieceView>, qs: Seq<PieceView>, i: int, e: int)
    requires
        same_texts(ps, qs),
        0 <= i <= e,
    ensures
        chain_end_from(ps, i, e) == chain_end_from(qs, i, e),
    decreases ps.len() - e,
{
    if e + 1 < ps.len() && e - i + 1 < 6 && flows_on(ps, e) {
        assert(ps[e].text == qs[e].text && ps[e + 1].text == qs[e + 1].text);
        lemma_chain_end_texts(ps, qs, i, e + 1);
    } else if e + 1 < ps.len() && e - i + 1 < 6 && e >= 0 {
        assert(ps[e].text == qs[e].text && ps[e + 1].text == qs[e + 1].text);
    }
}

/// From piece `i` on, no continuation chain carries two distinct labels.
pub open spec fn settled_from(ps: Seq<PieceView>, i: int) -> bool
    decreases ps.len() - i,
{
    if i < 0 || i >= ps.len() {
        true
    } else {
        proof {
            lemma_chain_end_from(ps, i, i);
        }
        let e = chain_end(ps, i);
        (e == i || first_occ(chain_labels(ps, i, e)).len() < 2) && settled_from(ps, e + 1)
    }
}

proof fn lemma_settled_fixed(ps: Seq<PieceView>, i: int)
    requires
        settled_from(ps, i),
    ensures
        absorb_from(ps, i) == ps,
    decreases ps.len() - i,
{
    if 0 <= i < ps.len() {
        lemma_chain_end_from(ps, i, i);
        assert(absorb_step(ps, i) == ps);
        lemma_settled_fixed(ps, chain_end(ps, i) + 1);
    }
}

proof fn lemma_absorb_from_keeps_before(ps: Seq<PieceView>, i: int, j: int)
    requires
        0 <= j < i,
        j < ps.len(),
    ensures
        absorb_from(ps, i)[j] == ps[j],
    decreases ps.len() - i,
{
    if 0 <= i < ps.len() {
        lemma_chain_end_from(ps, i, i);
        let q = absorb_step(ps, i);
        lemma_absorb_from_keeps_before(q, chain_end(ps, i) + 1, j);
        assert(q[j] == ps[j]);
    }
}

proof fn lemma_chain_labels_eq(a: Seq<PieceView>, b: Seq<PieceView>, i: int, e: int)
    requires
        a.len() == b.len(),
        e < a.len(),
        forall|j: int| 0 <= i <= j <= e ==> #[trigger] a[j] == b[j],
        0 <= i,
    ensures
        chain_labels(a, i, e) == chain_labels(b, i, e),
    decreases e - i + 1,
{
    if e >= i {
        lemma_chain_labels_eq(a, b, i, e - 1);
        assert(a[e] == b[e]);
    }
}

proof fn lemma_relabelled_chain(ps: Seq<PieceView>, i: int, e: int, w: Seq<char>, m: int)
    requires
        0 <= i,
        m <= e < ps.len(),
    ensures
        forall|j: int|
            0 <= j < chain_labels(relabel_range(ps, i, e, w), i, m).len() ==> #[trigger] chain_labels(
                relabel_range(ps, i, e, w),
                i,
                m,
            )[j] == w,
    decreases m - i + 1,
{
    if m >= i {
        lemma_relabelled_chain(ps, i, e, w, m - 1);
        let q = relabel_range(ps, i, e, w);
        let prev = chain_labels(q, i, m - 1);
        let cur = chain_labels(q, i, m);
        if ps[m].label is Some {
            assert(q[m].label == Some(w));
            assert(cur == prev.push(w));
            assert forall|j: int| 0 <= j < cur.len() implies #[trigger] cur[j] == w by {
                if j < prev.len() {
                    assert(cur[j] == prev[j]);
                }
            }
        } else {
            assert(q[m] == ps[m]);
            assert(cur == prev);
        }
    }
}

proof fn lemma_first_occ_const(s: Seq<Seq<char>>, w: Seq<char>)
    requires
        forall|j: int| 0 <= j < s.len() ==> #[trigger] s[j] == w,
    ensures
        first_occ(s).len() <= 1,
        first_occ(s).len() == 1 ==> first_occ(s)[0] == w,
    decreases s.len(),
{
    if s.len() > 0 {
        let d = s.drop_last();
        assert forall|j: int| 0 <= j < d.len() implies #[trigger] d[j] == w by {
            assert(d[j] == s[j]);
        }
        lemma_first_occ_const(d, w);
        assert(s.last() == w);
        if first_occ(d).len() == 1 {
            assert(first_occ(d).contains(w)) by {
                assert(first_occ(d)[0] == w);
            }
        }
    }
}

proof fn lemma_absorb_settles(ps: Seq<PieceView>, i: int)
    requires
        0 <= i,
    ensures
        settled_from(absorb_from(ps, i), i),
    decreases ps.len() - i,
{
    if i < ps.len() {
        lemma_chain_end_from(ps, i, i);
        let e = chain_end(ps, i);
        let q = absorb_step(ps, i);
        let r = absorb_from(q, e + 1);
        lemma_absorb_settles(q, e + 1);
        lemma_absorb_step_texts(ps, i);
        lemma_absorb_from_texts(q, e + 1);
        assert(same_texts(r, ps)) by {
            assert forall|j: int| 0 <= j < r.len() implies #[trigger] r[j].text == ps[j].text
                && r[j].words == ps[j].words by {
                assert(r[j].text == q[j].text);
            }
        }
        lemma_chain_end_texts(r, ps, i, i);
        assert(chain_end(r, i) == e);
        assert forall|j: int| 0 <= i <= j <= e implies #[trigger] r[j] == q[j] by {
            lemma_absorb_from_keeps_before(q, e + 1, j);
        }
        lemma_chain_labels_eq(r, q, i, e);
        if e > i && first_occ(chain_labels(ps, i, e)).len() >= 2 {
            lemma_relabelled_chain(ps, i, e, chain_winner(ps, i, e), e);
            lemma_first_occ_const(chain_labels(q, i, e), chain_winner(ps, i, e));
        }
        assert(absorb_from(ps, i) == r);
    }
}

/// Collapsing continuation chains is idempotent: a second pass over its own
/// output changes nothing.
pub proof fn law_absorb_idempotent(ps: Seq<PieceView>)
    ensures
        absorb_all(absorb_all(ps)) == absorb_all(ps),
{
    lemma_absorb_settles(ps, 0);
    lemma_settled_fixed(absorb_all(ps), 0);
}

} // verus!
