//! Character- and string-level primitives shared by the transcript passes.
//!
//! Text is modelled as `Seq<char>`: every `&str` / `String` is viewed through
//! `@`, and the passes work on `Vec<char>` copies whose view is the same
//! sequence.
use vstd::prelude::*;

verus! {

// ---------------------------------------------------------------------------
// Character classes
// ---------------------------------------------------------------------------

/// The Unicode `White_Space` property, which is what `char::is_whitespace`
/// tests.
pub open spec fn is_ws(c: char) -> bool {
    let u = c as u32;
    ||| 0x09 <= u <= 0x0D
    ||| u == 0x20
    ||| u == 0x85
    ||| u == 0xA0
    ||| u == 0x1680
    ||| 0x2000 <= u <= 0x200A
    ||| u == 0x2028
    ||| u == 0x2029
    ||| u == 0x202F
    ||| u == 0x205F
    ||| u == 0x3000
}

/// `c` is one of `0`..=`9`.
pub open spec fn is_digit(c: char) -> bool {
    '0' <= c <= '9'
}

pub fn is_whitespace(c: char) -> (b: bool)
    ensures
        b == is_ws(c),
{
    let u = c as u32;
    (0x09 <= u && u <= 0x0D) || u == 0x20 || u == 0x85 || u == 0xA0 || u == 0x1680 || (0x2000
        <= u && u <= 0x200A) || u == 0x2028 || u == 0x2029 || u == 0x202F || u == 0x205F || u
        == 0x3000
}

pub fn is_ascii_digit(c: char) -> (b: bool)
    ensures
        b == is_digit(c),
{
    '0' <= c && c <= '9'
}

/// `c` is an ASCII letter.
pub open spec fn is_ascii_letter(c: char) -> bool {
    ('a' <= c <= 'z') || ('A' <= c <= 'Z')
}

/// What `char::is_alphanumeric` answers (Unicode `Alphabetic` or `Numeric`).
pub uninterp spec fn char_is_alphanumeric(c: char) -> bool;

/// What `char::is_lowercase` answers (Unicode `Lowercase`).
pub uninterp spec fn char_is_lowercase(c: char) -> bool;

/// What `char::is_uppercase` answers (Unicode `Uppercase`).
pub uninterp spec fn char_is_uppercase(c: char) -> bool;

/// What `char::to_lowercase` yields, collected.
pub uninterp spec fn char_lowercase(c: char) -> Seq<char>;

/// What `str::to_lowercase` returns.
pub uninterp spec fn str_lowercase(s: Seq<char>) -> Seq<char>;

/// Calls `char::is_alphanumeric`. Trusted: on ASCII input the answer is "is an
/// ASCII letter or digit", as std documents; beyond ASCII the answer is the
/// Unicode table lookup, left to the name `char_is_alphanumeric`.
#[verifier::external_body]
pub(crate) fn is_alphanumeric(c: char) -> (b: bool)
    ensures
        b == char_is_alphanumeric(c),
        (c as u32) < 0x80 ==> (b <==> (is_ascii_letter(c) || is_digit(c))),
{
    c.is_alphanumeric()
}

/// Calls `char::is_lowercase`. Trusted: on ASCII input the answer is
/// "is `a`..=`z`"; beyond ASCII it is the Unicode `Lowercase` lookup, left to
/// the name `char_is_lowercase`.
#[verifier::external_body]
pub(crate) fn is_lowercase(c: char) -> (b: bool)
    ensures
        b == char_is_lowercase(c),
        (c as u32) < 0x80 ==> (b <==> ('a' <= c <= 'z')),
{
    c.is_lowercase()
}

/// Calls `char::is_uppercase`. Trusted: on ASCII input the answer is
/// "is `A`..=`Z`"; beyond ASCII it is the Unicode `Uppercase` lookup, left to
/// the name `char_is_uppercase`.
#[verifier::external_body]
pub(crate) fn is_uppercase(c: char) -> (b: bool)
    ensures
        b == char_is_uppercase(c),
        (c as u32) < 0x80 ==> (b <==> ('A' <= c <= 'Z')),
{
    c.is_uppercase()
}

/// `c` lowered the ASCII way: `A`..=`Z` to `a`..=`z`, anything else as is.
pub open spec fn ascii_lower(c: char) -> char {
    if 'A' <= c <= 'Z' {
        ((c as u32) + 32) as char
    } else {
        c
    }
}

/// Calls `char::to_lowercase` and collects the characters it yields.
/// Trusted: the result is whatever the Unicode case tables give, named
/// `char_lowercase`; for an ASCII character that is the one character
/// `ascii_lower(c)`, as std documents.
#[verifier::external_body]
pub(crate) fn lowercase_char(c: char) -> (r: Vec<char>)
    ensures
        r@ == char_lowercase(c),
        (c as u32) < 0x80 ==> r@ == seq![ascii_lower(c)],
{
    c.to_lowercase().collect()
}

/// Calls `str::to_lowercase`. Trusted: the result is whatever the Unicode
/// case tables give (including the word-final sigma rule), named
/// `str_lowercase`; for an all-ASCII text that is each character lowered
/// the ASCII way, as std documents.
#[verifier::external_body]
pub(crate) fn lowercase_str(s: &str) -> (r: String)
    ensures
        r@ == str_lowercase(s@),
        (forall|i: int| 0 <= i < s@.len() ==> (s@[i] as u32) < 0x80) ==> r@ == s@.map_values(
            |c: char| ascii_lower(c),
        ),
{
    s.to_lowercase()
}

// ---------------------------------------------------------------------------
// Strings <-> character vectors
// ---------------------------------------------------------------------------

/// Calls `String::push`. Trusted: appends one character.
#[verifier::external_body]
pub(crate) fn push_char(s: &mut String, c: char)
    ensures
        final(s)@ == old(s)@.push(c),
{
    s.push(c)
}

/// The characters of a string slice, in order.
pub fn chars_of(s: &str) -> (v: Vec<char>)
    ensures
        v@ == s@,
{
    let mut v: Vec<char> = Vec::new();
    for c in iter: s.chars()
        invariant
            v@ == iter.seq().take(iter.index() as int),
    {
        v.push(c);
    }
    v
}

/// A `String` holding exactly the given characters.
pub fn string_of(v: &[char]) -> (s: String)
    ensures
        s@ == v@,
{
    let mut s = String::new();
    let mut i: usize = 0;
    while i < v.len()
        invariant
            i <= v.len(),
            s@ == v@.take(i as int),
        decreases v.len() - i,
    {
        push_char(&mut s, v[i]);
        assert(v@.take(i as int).push(v@[i as int]) =~= v@.take(i + 1));
        i += 1;
    }
    assert(v@.take(v.len() as int) =~= v@);
    s
}

/// A copy of a slice of characters.
pub fn copy_chars(v: &[char]) -> (r: Vec<char>)
    ensures
        r@ == v@,
{
    slice_sub(v, 0, v.len())
}

/// The characters `v[from..to]`.
pub fn slice_sub(v: &[char], from: usize, to: usize) -> (r: Vec<char>)
    requires
        from <= to <= v.len(),
    ensures
        r@ == v@.subrange(from as int, to as int),
{
    let mut r: Vec<char> = Vec::new();
    let mut i = from;
    while i < to
        invariant
            from <= i <= to <= v.len(),
            r@ == v@.subrange(from as int, i as int),
        decreases to - i,
    {
        r.push(v[i]);
        assert(v@.subrange(from as int, i as int).push(v@[i as int]) =~= v@.subrange(
            from as int,
            i + 1,
        ));
        i += 1;
    }
    r
}

/// Append the characters of `src` to `dst`.
pub fn extend_chars(dst: &mut Vec<char>, src: &[char])
    ensures
        final(dst)@ == old(dst)@ + src@,
{
    let mut i: usize = 0;
    while i < src.len()
        invariant
            i <= src.len(),
            dst@ == old(dst)@ + src@.take(i as int),
        decreases src.len() - i,
    {
        dst.push(src[i]);
        assert(old(dst)@ + src@.take(i as int).push(src@[i as int]) =~= old(dst)@ + src@.take(
            i + 1,
        ));
        i += 1;
    }
    assert(src@.take(src.len() as int) =~= src@);
}

/// Characters equal element by element.
pub fn chars_eq(a: &[char], b: &[char]) -> (r: bool)
    ensures
        r == (a@ == b@),
{
    if a.len() != b.len() {
        return false;
    }
    let mut i: usize = 0;
    while i < a.len()
        invariant
            a.len() == b.len(),
            i <= a.len(),
            forall|k: int| 0 <= k < i ==> a@[k] == b@[k],
        decreases a.len() - i,
    {
        if a[i] != b[i] {
            return false;
        }
        i += 1;
    }
    assert(a@ =~= b@);
    true
}

// ---------------------------------------------------------------------------
// Trimming
// ---------------------------------------------------------------------------

/// `s` without its leading whitespace (`str::trim_start`).
pub open spec fn trim_start(s: Seq<char>) -> Seq<char>
    decreases s.len(),
{
    if s.len() > 0 && is_ws(s[0]) {
        trim_start(s.drop_first())
    } else {
        s
    }
}

/// `s` without its trailing whitespace (`str::trim_end`).
pub open spec fn trim_end(s: Seq<char>) -> Seq<char>
    decreases s.len(),
{
    if s.len() > 0 && is_ws(s.last()) {
        trim_end(s.drop_last())
    } else {
        s
    }
}

/// `s` without leading or trailing whitespace (`str::trim`).
pub open spec fn trim(s: Seq<char>) -> Seq<char> {
    trim_end(trim_start(s))
}

/// Every character of `s` is whitespace.
pub open spec fn all_ws(s: Seq<char>) -> bool {
    forall|i: int| 0 <= i < s.len() ==> is_ws(#[trigger] s[i])
}

pub proof fn lemma_trim_start_skip(s: Seq<char>, i: int)
    requires
        0 <= i <= s.len(),
        all_ws(s.take(i)),
    ensures
        trim_start(s) == trim_start(s.skip(i)),
    decreases i,
{
    if i > 0 {
        assert(is_ws(s.take(i)[0]));
        assert(s.drop_first().take(i - 1) =~= s.take(i).drop_first());
        lemma_trim_start_skip(s.drop_first(), i - 1);
        assert(s.drop_first().skip(i - 1) =~= s.skip(i));
    } else {
        assert(s.skip(0) =~= s);
    }
}

pub proof fn lemma_trim_end_take(s: Seq<char>, i: int)
    requires
        0 <= i <= s.len(),
        all_ws(s.skip(i)),
    ensures
        trim_end(s) == trim_end(s.take(i)),
    decreases s.len() - i,
{
    if i < s.len() {
        assert(is_ws(s.skip(i)[s.len() - i - 1]));
        assert(s.drop_last().skip(i) =~= s.skip(i).drop_last());
        lemma_trim_end_take(s.drop_last(), i);
        assert(s.drop_last().take(i) =~= s.take(i));
    } else {
        assert(s.take(i) =~= s);
    }
}

pub proof fn lemma_trim_start_shape(s: Seq<char>)
    ensures
        trim_start(s).is_suffix_of(s),
        trim_start(s).len() == 0 || !is_ws(trim_start(s)[0]),
        all_ws(s.take(s.len() - trim_start(s).len())),
    decreases s.len(),
{
    if s.len() > 0 && is_ws(s[0]) {
        lemma_trim_start_shape(s.drop_first());
        let t = trim_start(s.drop_first());
        assert(s.take(s.len() - t.len()) =~= seq![s[0]] + s.drop_first().take(
            s.drop_first().len() - t.len(),
        ));
        assert(t =~= s.subrange(s.len() - t.len(), s.len() as int)) by {
            assert(t =~= s.drop_first().subrange(
                s.drop_first().len() - t.len(),
                s.drop_first().len() as int,
            ));
        }
    } else {
        assert(s.take(0) =~= Seq::<char>::empty());
        assert(s.subrange(0, s.len() as int) =~= s);
    }
}

pub proof fn lemma_trim_end_shape(s: Seq<char>)
    ensures
        trim_end(s).is_prefix_of(s),
        trim_end(s).len() == 0 || !is_ws(trim_end(s).last()),
        all_ws(s.skip(trim_end(s).len() as int)),
    decreases s.len(),
{
    if s.len() > 0 && is_ws(s.last()) {
        lemma_trim_end_shape(s.drop_last());
        let t = trim_end(s.drop_last());
        assert(s.skip(t.len() as int) =~= s.drop_last().skip(t.len() as int).push(s.last()));
    } else {
        assert(s.skip(s.len() as int) =~= Seq::<char>::empty());
    }
}

/// Index of the first non-whitespace character (or `v.len()`).
pub fn trim_start_index(v: &[char]) -> (i: usize)
    ensures
        i <= v.len(),
        trim_start(v@) == v@.skip(i as int),
{
    let mut i: usize = 0;
    while i < v.len() && is_whitespace(v[i])
        invariant
            i <= v.len(),
            all_ws(v@.take(i as int)),
        decreases v.len() - i,
    {
        assert(v@.take(i + 1) =~= v@.take(i as int).push(v@[i as int]));
        i += 1;
    }
    proof {
        lemma_trim_start_skip(v@, i as int);
        if i < v.len() {
            assert(v@.skip(i as int)[0] == v@[i as int]);
        }
    }
    i
}

/// One past the last non-whitespace character (or 0).
pub fn trim_end_index(v: &[char]) -> (j: usize)
    ensures
        j <= v.len(),
        trim_end(v@) == v@.take(j as int),
{
    let mut j: usize = v.len();
    while j > 0 && is_whitespace(v[j - 1])
        invariant
            j <= v.len(),
            all_ws(v@.skip(j as int)),
        decreases j,
    {
        assert(v@.skip(j - 1) =~= seq![v@[j - 1]] + v@.skip(j as int));
        j -= 1;
    }
    proof {
        lemma_trim_end_take(v@, j as int);
        if j > 0 {
            assert(v@.take(j as int).last() == v@[j - 1]);
        }
    }
    j
}

/// `trim_end` of a character vector.
pub fn trim_end_chars(v: &[char]) -> (r: Vec<char>)
    ensures
        r@ == trim_end(v@),
{
    let j = trim_end_index(v);
    slice_sub(v, 0, j)
}

/// `trim_start` of a character vector.
pub fn trim_start_chars(v: &[char]) -> (r: Vec<char>)
    ensures
        r@ == trim_start(v@),
{
    let i = trim_start_index(v);
    slice_sub(v, i, v.len())
}

/// `trim` of a character vector.
pub fn trim_chars(v: &[char]) -> (r: Vec<char>)
    ensures
        r@ == trim(v@),
{
    let a = trim_start_chars(v);
    trim_end_chars(&a)
}

/// Whether `trim(v)` is empty, i.e. `v` is all whitespace.
pub fn is_blank(v: &[char]) -> (b: bool)
    ensures
        b == (trim(v@).len() == 0),
        b == all_ws(v@),
{
    let i = trim_start_index(v);
    proof {
        lemma_trim_start_shape(v@);
        let t = trim_start(v@);
        if t.len() > 0 {
            lemma_trim_end_shape(t);
            if trim_end(t).len() == 0 {
                assert(all_ws(t.skip(0)));
                assert(t.skip(0)[0] == t[0]);
            }
            assert(!is_ws(v@[i as int]));
        } else {
            assert(v@.take(v@.len() - 0) =~= v@);
        }
    }
    i == v.len()
}


// ---------------------------------------------------------------------------
// Searching
// ---------------------------------------------------------------------------

/// Index of the first `c` in `s`, or -1 when there is none.
pub open spec fn pos_of(s: Seq<char>, c: char) -> int
    decreases s.len(),
{
    if s.len() == 0 {
        -1
    } else if s[0] == c {
        0
    } else {
        let r = pos_of(s.drop_first(), c);
        if r < 0 {
            -1
        } else {
            r + 1
        }
    }
}

/// `pos_of` is the first position holding `c`, scanning from the front.
pub proof fn lemma_pos_of(s: Seq<char>, c: char, k: int)
    requires
        0 <= k <= s.len(),
        forall|j: int| 0 <= j < k ==> s[j] != c,
        k == s.len() || s[k] == c,
    ensures
        pos_of(s, c) == (if k == s.len() { -1 } else { k }),
    decreases k,
{
    if k > 0 {
        lemma_pos_of(s.drop_first(), c, k - 1);
    }
}

pub proof fn lemma_pos_of_props(s: Seq<char>, c: char)
    ensures
        -1 <= pos_of(s, c) < s.len(),
        pos_of(s, c) >= 0 ==> s[pos_of(s, c)] == c,
        forall|j: int| 0 <= j < s.len() && (pos_of(s, c) < 0 || j < pos_of(s, c)) ==> s[j] != c,
    decreases s.len(),
{
    if s.len() > 0 && s[0] != c {
        lemma_pos_of_props(s.drop_first(), c);
        assert forall|j: int|
            0 <= j < s.len() && (pos_of(s, c) < 0 || j < pos_of(s, c)) implies s[j] != c by {
            if j > 0 {
                assert(s[j] == s.drop_first()[j - 1]);
            }
        }
    }
}

/// First index of `c` in `v`, if any.
pub fn find_char(v: &[char], c: char) -> (r: Option<usize>)
    ensures
        r is None ==> pos_of(v@, c) == -1,
        r matches Some(k) ==> pos_of(v@, c) == k && k < v.len(),
{
    let mut k: usize = 0;
    while k < v.len() && v[k] != c
        invariant
            k <= v.len(),
            forall|j: int| 0 <= j < k ==> v@[j] != c,
        decreases v.len() - k,
    {
        k += 1;
    }
    proof {
        lemma_pos_of(v@, c, k as int);
    }
    if k == v.len() {
        None
    } else {
        Some(k)
    }
}

/// `n` occurs in `h` starting at `i`.
pub open spec fn occurs_at(h: Seq<char>, n: Seq<char>, i: int) -> bool {
    0 <= i && i + n.len() <= h.len() && h.subrange(i, i + n.len()) == n
}

/// `n` occurs somewhere in `h` (`str::contains` on a string needle).
pub open spec fn contains_sub(h: Seq<char>, n: Seq<char>) -> bool {
    exists|i: int| occurs_at(h, n, i)
}

/// Whether `n` occurs in `h` at position `i`.
pub fn occurs_at_exec(h: &[char], n: &[char], i: usize) -> (r: bool)
    ensures
        r == occurs_at(h@, n@, i as int),
{
    if i > h.len() || n.len() > h.len() - i {
        return false;
    }
    let mut k: usize = 0;
    while k < n.len()
        invariant
            i + n.len() <= h.len(),
            k <= n.len(),
            forall|j: int| 0 <= j < k ==> h@[i + j] == n@[j],
        decreases n.len() - k,
    {
        if h[i + k] != n[k] {
            assert(h@.subrange(i as int, i + n.len())[k as int] != n@[k as int]);
            return false;
        }
        k += 1;
    }
    assert(h@.subrange(i as int, i + n.len()) =~= n@);
    true
}

/// Substring search.
pub fn contains_chars(h: &[char], n: &[char]) -> (r: bool)
    ensures
        r == contains_sub(h@, n@),
{
    if n.len() > h.len() {
        assert(!contains_sub(h@, n@));
        return false;
    }
    let last = h.len() - n.len();
    let mut i: usize = 0;
    loop
        invariant
            n.len() <= h.len(),
            last == h.len() - n.len(),
            i <= last,
            forall|j: int| 0 <= j < i ==> !occurs_at(h@, n@, j),
        decreases last - i,
    {
        if occurs_at_exec(h, n, i) {
            return true;
        }
        if i == last {
            assert forall|j: int| !occurs_at(h@, n@, j) by {
                if 0 <= j < i {
                }
            }
            return false;
        }
        i += 1;
    }
}

/// `p` is a prefix of `v`.
pub fn starts_with_chars(v: &[char], p: &[char]) -> (r: bool)
    ensures
        r == p@.is_prefix_of(v@),
{
    let r = occurs_at_exec(v, p, 0);
    proof {
        if r {
            assert forall|j: int| 0 <= j < p@.len() implies p@[j] == v@[j] by {
                assert(v@.subrange(0, p@.len() as int)[j] == v@[j]);
            }
        }
        if p@.is_prefix_of(v@) {
            assert(v@.subrange(0, p@.len() as int) =~= p@);
        }
    }
    r
}

// ---------------------------------------------------------------------------
// Splitting and joining
// ---------------------------------------------------------------------------

/// Length of the run of non-whitespace characters that opens `s`.
pub open spec fn word_len(s: Seq<char>) -> nat
    decreases s.len(),
{
    if s.len() == 0 || is_ws(s[0]) {
        0
    } else {
        1 + word_len(s.drop_first())
    }
}

pub proof fn lemma_word_len(s: Seq<char>, k: int)
    requires
        0 <= k <= s.len(),
        forall|j: int| 0 <= j < k ==> !is_ws(s[j]),
        k == s.len() || is_ws(s[k]),
    ensures
        word_len(s) == k,
    decreases k,
{
    if k > 0 {
        lemma_word_len(s.drop_first(), k - 1);
    }
}

pub proof fn lemma_word_len_bound(s: Seq<char>)
    ensures
        word_len(s) <= s.len(),
        s.len() > 0 && !is_ws(s[0]) ==> word_len(s) >= 1,
    decreases s.len(),
{
    if s.len() > 0 && !is_ws(s[0]) {
        lemma_word_len_bound(s.drop_first());
    }
}

/// The views of a sequence of character vectors.
pub open spec fn seqs(v: Seq<Vec<char>>) -> Seq<Seq<char>> {
    v.map_values(|w: Vec<char>| w@)
}

pub proof fn lemma_seqs_push(v: Seq<Vec<char>>, w: Vec<char>)
    ensures
        seqs(v.push(w)) == seqs(v).push(w@),
{
    assert(seqs(v.push(w)) =~= seqs(v).push(w@));
}

/// `str::split_whitespace`: the maximal runs of non-whitespace characters.
pub open spec fn split_ws(s: Seq<char>) -> Seq<Seq<char>>
    decreases s.len(),
{
    if s.len() == 0 {
        seq![]
    } else if is_ws(s[0]) {
        split_ws(s.drop_first())
    } else {
        proof {
            lemma_word_len_bound(s);
        }
        seq![s.take(word_len(s) as int)] + split_ws(s.skip(word_len(s) as int))
    }
}

/// `str::split_whitespace`.
pub fn split_whitespace(v: &[char]) -> (r: Vec<Vec<char>>)
    ensures
        seqs(r@) == split_ws(v@),
{
    let mut out: Vec<Vec<char>> = Vec::new();
    let mut i: usize = 0;
    assert(v@.skip(0) =~= v@);
    while i < v.len()
        invariant
            i <= v.len(),
            split_ws(v@) == seqs(out@) + split_ws(v@.skip(i as int)),
        decreases v.len() - i,
    {
        let ghost rest = v@.skip(i as int);
        if is_whitespace(v[i]) {
            assert(rest.drop_first() =~= v@.skip(i + 1));
            i += 1;
        } else {
            let mut j = i;
            while j < v.len() && !is_whitespace(v[j])
                invariant
                    i <= j <= v.len(),
                    forall|t: int| i <= t < j ==> !is_ws(v@[t]),
                decreases v.len() - j,
            {
                j += 1;
            }
            let w = slice_sub(v, i, j);
            proof {
                lemma_word_len(rest, j - i);
                assert(rest.take(j - i) =~= w@);
                assert(rest.skip(j - i) =~= v@.skip(j as int));
            }
            let ghost before = seqs(out@);
            proof {
                lemma_seqs_push(out@, w);
            }
            out.push(w);
            assert(before + split_ws(rest) =~= seqs(out@) + split_ws(v@.skip(j as int)));
            i = j;
        }
    }
    assert(v@.skip(i as int) =~= Seq::<char>::empty());
    assert(seqs(out@) + Seq::<Seq<char>>::empty() =~= seqs(out@));
    out
}

/// The words of `v`, counted.
pub fn count_words(v: &[char]) -> (n: usize)
    ensures
        n == split_ws(v@).len(),
{
    split_whitespace(v).len()
}

/// `ws` joined with `sep` between consecutive elements.
pub open spec fn join(ws: Seq<Seq<char>>, sep: Seq<char>) -> Seq<char>
    decreases ws.len(),
{
    if ws.len() == 0 {
        seq![]
    } else if ws.len() == 1 {
        ws[0]
    } else {
        join(ws.drop_last(), sep) + sep + ws.last()
    }
}

/// `[w1, w2, ...].join(sep)`.
pub fn join_chars(ws: &Vec<Vec<char>>, sep: &[char]) -> (r: Vec<char>)
    ensures
        r@ == join(seqs(ws@), sep@),
{
    let mut r: Vec<char> = Vec::new();
    let mut i: usize = 0;
    while i < ws.len()
        invariant
            i <= ws.len(),
            r@ == join(seqs(ws@).take(i as int), sep@),
        decreases ws.len() - i,
    {
        let ghost dv = seqs(ws@);
        if i > 0 {
            extend_chars(&mut r, sep);
        }
        extend_chars(&mut r, &ws[i]);
        assert(dv.take(i + 1).drop_last() =~= dv.take(i as int));
        assert(dv[i as int] == ws[i as int]@);
        if i == 0 {
            assert(r@ =~= dv.take(1)[0]);
        }
        i += 1;
    }
    assert(seqs(ws@).take(ws.len() as int) =~= seqs(ws@));
    r
}

/// `str::split(c)`: the pieces between occurrences of `c` (always at least one).
pub open spec fn split_on(s: Seq<char>, c: char) -> Seq<Seq<char>>
    decreases s.len(),
{
    let k = pos_of(s, c);
    if k < 0 {
        seq![s]
    } else {
        proof {
            lemma_pos_of_props(s, c);
        }
        seq![s.take(k)] + split_on(s.skip(k + 1), c)
    }
}

/// `str::split(c)`.
pub fn split_char(v: &[char], c: char) -> (r: Vec<Vec<char>>)
    ensures
        seqs(r@) == split_on(v@, c),
        r.len() >= 1,
{
    let mut out: Vec<Vec<char>> = Vec::new();
    let mut i: usize = 0;
    assert(v@.skip(0) =~= v@);
    loop
        invariant
            i <= v.len(),
            split_on(v@, c) == seqs(out@) + split_on(v@.skip(i as int), c),
        decreases v.len() - i,
    {
        let ghost rest = v@.skip(i as int);
        let mut j = i;
        while j < v.len() && v[j] != c
            invariant
                i <= j <= v.len(),
                forall|t: int| i <= t < j ==> v@[t] != c,
            decreases v.len() - j,
        {
            j += 1;
        }
        proof {
            lemma_pos_of(rest, c, j - i);
        }
        let piece = slice_sub(v, i, j);
        let ghost before = seqs(out@);
        out.push(piece);
        assert(seqs(out@) =~= before.push(piece@));
        if j == v.len() {
            assert(rest =~= piece@);
            assert(split_on(rest, c) =~= seq![piece@]);
            assert(before + seq![piece@] =~= seqs(out@));
            return out;
        }
        assert(rest.take(j - i) =~= piece@);
        assert(rest.skip(j - i + 1) =~= v@.skip(j + 1));
        assert(before + split_on(rest, c) =~= seqs(out@) + split_on(v@.skip(j + 1), c));
        i = j + 1;
    }
}

/// `x` without one trailing `'\r'`, if it has one.
pub open spec fn strip_cr(x: Seq<char>) -> Seq<char> {
    if x.len() > 0 && x.last() == '\r' {
        x.drop_last()
    } else {
        x
    }
}

/// `str::lines`: split on `'\n'`, a `"\r\n"` ending counts as one line ending,
/// and a final line ending adds no empty line.
pub open spec fn lines(s: Seq<char>) -> Seq<Seq<char>>
    decreases s.len(),
{
    if s.len() == 0 {
        seq![]
    } else {
        let k = pos_of(s, '\n');
        if k < 0 {
            seq![s]
        } else {
            proof {
                lemma_pos_of_props(s, '\n');
            }
            seq![strip_cr(s.take(k))] + lines(s.skip(k + 1))
        }
    }
}

/// No character of `s` is `c`.
pub open spec fn free_of(s: Seq<char>, c: char) -> bool {
    forall|i: int| 0 <= i < s.len() ==> s[i] != c
}

/// A text without `'\r'` splits into lines free of `'\n'` and `'\r'`; when
/// it does not end in `'\n'`, its last line is not empty.
pub proof fn lemma_lines_shape(t: Seq<char>)
    requires
        free_of(t, '\r'),
    ensures
        forall|i: int|
            0 <= i < lines(t).len() ==> free_of(#[trigger] lines(t)[i], '\n') && free_of(
                lines(t)[i],
                '\r',
            ),
        t.len() > 0 && t.last() != '\n' ==> lines(t).len() > 0 && lines(t).last().len() > 0,
    decreases t.len(),
{
    if t.len() > 0 {
        let k = pos_of(t, '\n');
        lemma_pos_of_props(t, '\n');
        if k >= 0 {
            let x = t.take(k);
            let y = t.skip(k + 1);
            assert(free_of(y, '\r')) by {
                assert forall|j: int| 0 <= j < y.len() implies y[j] != '\r' by {
                    assert(y[j] == t[k + 1 + j]);
                }
            }
            lemma_lines_shape(y);
            assert(strip_cr(x) == x) by {
                if x.len() > 0 {
                    assert(x.last() == t[k - 1]);
                }
            }
            let ls = lines(t);
            assert(ls == seq![x] + lines(y));
            assert forall|i: int| 0 <= i < ls.len() implies free_of(#[trigger] ls[i], '\n') && free_of(
                ls[i],
                '\r',
            ) by {
                if i == 0 {
                    assert(ls[0] == x);
                    assert forall|j: int| 0 <= j < x.len() implies x[j] != '\n' && x[j] != '\r' by {
                        assert(x[j] == t[j]);
                    }
                } else {
                    assert(ls[i] == lines(y)[i - 1]);
                }
            }
            if t.last() != '\n' {
                assert(y.len() > 0);
                assert(y.last() == t.last());
                assert(ls.last() == lines(y).last());
            }
        }
    }
}

/// `[x, rest..].join(sep)` is `x`, `sep`, then the rest joined.
pub proof fn lemma_join_front(ls: Seq<Seq<char>>, sep: Seq<char>)
    requires
        ls.len() >= 2,
    ensures
        join(ls, sep) == ls[0] + sep + join(ls.drop_first(), sep),
    decreases ls.len(),
{
    if ls.len() == 2 {
        assert(ls.drop_last() =~= seq![ls[0]]);
        assert(ls.drop_first() =~= seq![ls[1]]);
        assert(join(ls.drop_last(), sep) == ls[0]);
        assert(join(ls.drop_first(), sep) == ls[1]);
        assert(join(ls, sep) =~= ls[0] + sep + join(ls.drop_first(), sep));
    } else {
        let d = ls.drop_last();
        lemma_join_front(d, sep);
        assert(d.drop_first() =~= ls.drop_first().drop_last());
        assert(ls.drop_first().last() == ls.last());
        assert(d[0] == ls[0]);
        assert(join(ls.drop_first(), sep) == join(d.drop_first(), sep) + sep + ls.last());
        assert(join(ls, sep) == join(d, sep) + sep + ls.last());
        assert(join(ls, sep) =~= ls[0] + sep + join(ls.drop_first(), sep));
    }
}

/// Joining lines free of `'\n'` and `'\r'` with `'\n'`, the last one not
/// empty, and splitting the result into lines gives them back.
pub proof fn lemma_lines_join(ls: Seq<Seq<char>>)
    requires
        ls.len() > 0,
        forall|i: int| 0 <= i < ls.len() ==> free_of(#[trigger] ls[i], '\n') && free_of(ls[i], '\r'),
        ls.last().len() > 0,
    ensures
        lines(join(ls, seq!['\n'])) == ls,
    decreases ls.len(),
{
    let t = join(ls, seq!['\n']);
    let x = ls[0];
    assert(free_of(x, '\n') && free_of(x, '\r'));
    if ls.len() == 1 {
        lemma_pos_of(x, '\n', x.len() as int);
        assert(lines(t) =~= seq![x]);
    } else {
        let r = ls.drop_first();
        assert forall|i: int| 0 <= i < r.len() implies free_of(#[trigger] r[i], '\n') && free_of(
            r[i],
            '\r',
        ) by {
            assert(r[i] == ls[i + 1]);
        }
        lemma_lines_join(r);
        lemma_join_front(ls, seq!['\n']);
        assert(t =~= x + seq!['\n'] + join(r, seq!['\n']));
        assert forall|j: int| 0 <= j < x.len() implies t[j] != '\n' by {
            assert(t[j] == x[j]);
        }
        assert(t[x.len() as int] == '\n');
        lemma_pos_of(t, '\n', x.len() as int);
        assert(t.take(x.len() as int) =~= x);
        assert(t.skip(x.len() + 1int) =~= join(r, seq!['\n']));
        assert(strip_cr(x) == x) by {
            if x.len() > 0 {
                assert(x[x.len() - 1] != '\r');
            }
        }
        assert(lines(t) =~= seq![x] + r);
        assert(seq![x] + r =~= ls);
    }
}

/// `str::lines`.
pub fn split_lines(v: &[char]) -> (r: Vec<Vec<char>>)
    ensures
        seqs(r@) == lines(v@),
{
    let mut out: Vec<Vec<char>> = Vec::new();
    let mut i: usize = 0;
    assert(v@.skip(0) =~= v@);
    while i < v.len()
        invariant
            i <= v.len(),
            lines(v@) == seqs(out@) + lines(v@.skip(i as int)),
        decreases v.len() - i,
    {
        let ghost rest = v@.skip(i as int);
        let mut j = i;
        while j < v.len() && v[j] != '\n'
            invariant
                i <= j <= v.len(),
                forall|t: int| i <= t < j ==> v@[t] != '\n',
            decreases v.len() - j,
        {
            j += 1;
        }
        proof {
            lemma_pos_of(rest, '\n', j - i);
        }
        let ghost before = seqs(out@);
        if j == v.len() {
            let piece = slice_sub(v, i, j);
            out.push(piece);
            assert(rest =~= piece@);
            assert(seqs(out@) =~= before.push(piece@));
            assert(before + lines(rest) =~= seqs(out@));
            assert(v@.skip(j as int) =~= Seq::<char>::empty());
            assert(seqs(out@) + Seq::<Seq<char>>::empty() =~= seqs(out@));
            return out;
        }
        let end = if j > i && v[j - 1] == '\r' {
            j - 1
        } else {
            j
        };
        let piece = slice_sub(v, i, end);
        out.push(piece);
        assert(strip_cr(rest.take(j - i)) =~= piece@);
        assert(seqs(out@) =~= before.push(piece@));
        assert(rest.skip(j - i + 1) =~= v@.skip(j + 1));
        assert(before + lines(rest) =~= seqs(out@) + lines(v@.skip(j + 1)));
        i = j + 1;
    }
    assert(v@.skip(i as int) =~= Seq::<char>::empty());
    assert(seqs(out@) + Seq::<Seq<char>>::empty() =~= seqs(out@));
    out
}


// ---------------------------------------------------------------------------
// UTF-8 lengths
// ---------------------------------------------------------------------------

/// Bytes `c` takes in UTF-8 (`char::len_utf8`).
pub open spec fn char_utf8_len(c: char) -> nat {
    let u = c as u32;
    if u < 0x80 {
        1
    } else if u < 0x800 {
        2
    } else if u < 0x10000 {
        3
    } else {
        4
    }
}

/// Bytes `s` takes in UTF-8.
pub open spec fn utf8_len(s: Seq<char>) -> nat
    decreases s.len(),
{
    if s.len() == 0 {
        0
    } else {
        utf8_len(s.drop_last()) + char_utf8_len(s.last())
    }
}

/// `char::len_utf8`.
pub fn len_utf8(c: char) -> (n: usize)
    ensures
        n == char_utf8_len(c),
{
    let u = c as u32;
    if u < 0x80 {
        1
    } else if u < 0x800 {
        2
    } else if u < 0x10000 {
        3
    } else {
        4
    }
}

/// UTF-8 length of `v[..k]`, given that the whole of `v` fits in `usize` bytes.
pub fn utf8_prefix_len(v: &[char], k: usize) -> (n: usize)
    requires
        k <= v.len(),
        utf8_len(v@) <= usize::MAX,
    ensures
        n == utf8_len(v@.take(k as int)),
{
    let mut n: usize = 0;
    let mut i: usize = 0;
    while i < k
        invariant
            i <= k <= v.len(),
            utf8_len(v@) <= usize::MAX,
            n == utf8_len(v@.take(i as int)),
        decreases k - i,
    {
        proof {
            assert(v@.take(i + 1).drop_last() =~= v@.take(i as int));
            lemma_utf8_len_prefix(v@, i + 1);
        }
        n = n + len_utf8(v[i]);
        i += 1;
    }
    n
}

pub proof fn lemma_utf8_len_prefix(s: Seq<char>, k: int)
    requires
        0 <= k <= s.len(),
    ensures
        utf8_len(s.take(k)) <= utf8_len(s),
    decreases s.len() - k,
{
    if k < s.len() {
        assert(s.drop_last().take(k) =~= s.take(k));
        lemma_utf8_len_prefix(s.drop_last(), k);
    } else {
        assert(s.take(k) =~= s);
    }
}

/// Whether `utf8_len(v) <= limit`, without overflow.
pub fn utf8_len_at_most(v: &[char], limit: usize) -> (b: bool)
    ensures
        b == (utf8_len(v@) <= limit),
{
    let mut n: usize = 0;
    let mut i: usize = 0;
    while i < v.len()
        invariant
            i <= v.len(),
            n == utf8_len(v@.take(i as int)),
            n <= limit,
        decreases v.len() - i,
    {
        assert(v@.take(i + 1).drop_last() =~= v@.take(i as int));
        let c = len_utf8(v[i]);
        if c > limit - n {
            proof {
                lemma_utf8_len_prefix(v@, i + 1);
            }
            return false;
        }
        n = n + c;
        i += 1;
    }
    assert(v@.take(v.len() as int) =~= v@);
    true
}

} // verus!
