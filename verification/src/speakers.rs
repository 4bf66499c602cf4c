//! Speaker-number bookkeeping on labelled transcripts: finding the highest
//! `Speaker N`, shifting numbers past an earlier take's, and stitching a new
//! take onto a prior transcript.
use vstd::prelude::*;
use crate::text::{
    chars_of, copy_chars, extend_chars, free_of, is_ascii_digit, is_digit, join, join_chars, lemma_lines_join,
    lemma_lines_shape, lines,
    seqs, slice_sub, split_lines, starts_with_chars, string_of, trim, trim_chars, trim_end,
    trim_end_chars, trim_start, trim_start_chars,
};

verus! {

// ---------------------------------------------------------------------------
// Decimal numbers
// ---------------------------------------------------------------------------

/// `Speaker ` — the prefix of every generated label.
pub open spec fn speaker_prefix() -> Seq<char> {
    seq!['S', 'p', 'e', 'a', 'k', 'e', 'r', ' ']
}

/// Every character of `d` is an ASCII digit.
pub open spec fn all_digits(d: Seq<char>) -> bool {
    forall|i: int| 0 <= i < d.len() ==> is_digit(#[trigger] d[i])
}

/// Number of ASCII digits that open `s`.
pub open spec fn digit_run(s: Seq<char>) -> nat
    decreases s.len(),
{
    if s.len() > 0 && is_digit(s[0]) {
        1 + digit_run(s.drop_first())
    } else {
        0
    }
}

/// The value of a string of decimal digits.
pub open spec fn digits_value(d: Seq<char>) -> nat
    decreases d.len(),
{
    if d.len() == 0 {
        0
    } else {
        digits_value(d.drop_last()) * 10 + ((d.last() as u32) - ('0' as u32)) as nat
    }
}

/// What `str::parse::<u32>` returns: an optional `+`, then one or more
/// digits whose value fits in `u32`.
pub open spec fn parse_u32(s: Seq<char>) -> Option<u32> {
    let d = if s.len() > 0 && s[0] == '+' {
        s.drop_first()
    } else {
        s
    };
    if d.len() > 0 && all_digits(d) && digits_value(d) <= u32::MAX {
        Some(digits_value(d) as u32)
    } else {
        None
    }
}

/// The digit character for `d < 10`.
pub open spec fn digit_char(d: nat) -> char {
    if d == 0 {
        '0'
    } else if d == 1 {
        '1'
    } else if d == 2 {
        '2'
    } else if d == 3 {
        '3'
    } else if d == 4 {
        '4'
    } else if d == 5 {
        '5'
    } else if d == 6 {
        '6'
    } else if d == 7 {
        '7'
    } else if d == 8 {
        '8'
    } else {
        '9'
    }
}

proof fn lemma_digit_char(d: nat)
    requires
        d < 10,
    ensures
        is_digit(digit_char(d)),
        (digit_char(d) as u32) - ('0' as u32) == d,
{
}

/// Decimal rendering of `n` (what `format!("{n}")` writes).
pub open spec fn dec(n: nat) -> Seq<char>
    decreases n,
{
    if n < 10 {
        seq![digit_char(n)]
    } else {
        dec(n / 10).push(digit_char(n % 10))
    }
}

pub proof fn lemma_digit_run(s: Seq<char>, k: int)
    requires
        0 <= k <= s.len(),
        forall|j: int| 0 <= j < k ==> is_digit(s[j]),
        k == s.len() || !is_digit(s[k]),
    ensures
        digit_run(s) == k,
    decreases k,
{
    if k > 0 {
        lemma_digit_run(s.drop_first(), k - 1);
    }
}

/// Decimal rendering of a `u64`.
pub fn render_u64(n: u64) -> (r: Vec<char>)
    ensures
        r@ == dec(n as nat),
    decreases n,
{
    let d = (n % 10) as u32;
    let c = char_from_digit(d);
    if n < 10 {
        let mut r: Vec<char> = Vec::new();
        r.push(c);
        assert(r@ =~= seq![digit_char(n as nat)]);
        r
    } else {
        let mut r = render_u64(n / 10);
        r.push(c);
        r
    }
}

fn char_from_digit(d: u32) -> (c: char)
    requires
        d < 10,
    ensures
        c == digit_char(d as nat),
{
    match d {
        0 => '0',
        1 => '1',
        2 => '2',
        3 => '3',
        4 => '4',
        5 => '5',
        6 => '6',
        7 => '7',
        8 => '8',
        _ => '9',
    }
}

/// `str::parse::<u32>` on a character vector.
pub fn parse_u32_chars(s: &[char]) -> (r: Option<u32>)
    ensures
        r == parse_u32(s@),
{
    let start: usize = if s.len() > 0 && s[0] == '+' {
        1
    } else {
        0
    };
    let d = slice_sub(s, start, s.len());
    assert(d@ =~= (if s@.len() > 0 && s@[0] == '+' {
        s@.drop_first()
    } else {
        s@
    }));
    if d.len() == 0 {
        return None;
    }
    let mut v: u64 = 0;
    let mut i: usize = 0;
    while i < d.len()
        invariant
            d.len() > 0,
            parse_u32(s@) == (if all_digits(d@) && digits_value(d@) <= u32::MAX {
                Some(digits_value(d@) as u32)
            } else {
                None
            }),
            i <= d.len(),
            all_digits(d@.take(i as int)),
            v == digits_value(d@.take(i as int)),
            v <= u32::MAX,
        decreases d.len() - i,
    {
        if !is_ascii_digit(d[i]) {
            assert(!all_digits(d@)) by {
                assert(!is_digit(d@[i as int]));
            }
            return None;
        }
        assert(d@.take(i + 1).drop_last() =~= d@.take(i as int));
        let nv = v * 10 + ((d[i] as u32) - ('0' as u32)) as u64;
        assert(all_digits(d@.take(i + 1)));
        if nv > u32::MAX as u64 {
            proof {
                if all_digits(d@) {
                    lemma_digits_value_prefix(d@, i + 1);
                }
            }
            return None;
        }
        v = nv;
        i += 1;
    }
    assert(d@.take(d.len() as int) =~= d@);
    Some(v as u32)
}

/// A longer prefix of digits has at least the value of a shorter one.
pub proof fn lemma_digits_value_prefix(d: Seq<char>, k: int)
    requires
        0 <= k <= d.len(),
        all_digits(d),
    ensures
        digits_value(d.take(k)) <= digits_value(d),
    decreases d.len() - k,
{
    if k < d.len() {
        assert(d.drop_last().take(k) =~= d.take(k));
        assert(all_digits(d.drop_last()));
        lemma_digits_value_prefix(d.drop_last(), k);
        assert(is_digit(d[d.len() - 1]));
    } else {
        assert(d.take(k) =~= d);
    }
}

// ---------------------------------------------------------------------------
// Highest speaker number
// ---------------------------------------------------------------------------

/// The `N` of a line that (after leading whitespace) starts `Speaker N:`,
/// or 0.
pub open spec fn line_speaker_number(line: Seq<char>) -> nat {
    let t = trim_start(line);
    if speaker_prefix().is_prefix_of(t) {
        let rest = t.skip(8);
        let k = digit_run(rest);
        if k < rest.len() && rest[k as int] == ':' {
            match parse_u32(rest.take(k as int)) {
                Some(n) => n as nat,
                None => 0,
            }
        } else {
            0
        }
    } else {
        0
    }
}

/// Highest `line_speaker_number` over `ls`.
pub open spec fn max_line_number(ls: Seq<Seq<char>>) -> nat
    decreases ls.len(),
{
    if ls.len() == 0 {
        0
    } else {
        let a = max_line_number(ls.drop_last());
        let b = line_speaker_number(ls.last());
        if b > a {
            b
        } else {
            a
        }
    }
}

/// The highest `N` over the lines of `text` that start `Speaker N:`.
pub open spec fn max_speaker(text: Seq<char>) -> nat {
    max_line_number(lines(text))
}

pub proof fn lemma_max_line_number_bound(ls: Seq<Seq<char>>)
    ensures
        max_line_number(ls) <= u32::MAX,
    decreases ls.len(),
{
    if ls.len() > 0 {
        lemma_max_line_number_bound(ls.drop_last());
    }
}

fn speaker_prefix_chars() -> (r: Vec<char>)
    ensures
        r@ == speaker_prefix(),
{
    let r: Vec<char> = vec!['S', 'p', 'e', 'a', 'k', 'e', 'r', ' '];
    assert(r@ =~= speaker_prefix());
    r
}

fn digit_run_exec(s: &[char]) -> (k: usize)
    ensures
        k == digit_run(s@),
        k <= s.len(),
{
    let mut k: usize = 0;
    while k < s.len() && is_ascii_digit(s[k])
        invariant
            k <= s.len(),
            forall|j: int| 0 <= j < k ==> is_digit(s@[j]),
        decreases s.len() - k,
    {
        k += 1;
    }
    proof {
        lemma_digit_run(s@, k as int);
    }
    k
}

fn line_speaker_number_exec(line: &[char]) -> (n: u32)
    ensures
        n == line_speaker_number(line@),
{
    let t = trim_start_chars(line);
    let p = speaker_prefix_chars();
    if !starts_with_chars(&t, &p) {
        return 0;
    }
    let rest = slice_sub(&t, 8, t.len());
    assert(rest@ =~= t@.skip(8));
    let k = digit_run_exec(&rest);
    if k >= rest.len() || rest[k] != ':' {
        return 0;
    }
    let d = slice_sub(&rest, 0, k);
    assert(d@ =~= rest@.take(k as int));
    match parse_u32_chars(&d) {
        Some(n) => n,
        None => 0,
    }
}

fn max_speaker_chars(text: &[char]) -> (m: u32)
    ensures
        m == max_speaker(text@),
{
    let ls = split_lines(text);
    let mut m: u32 = 0;
    let mut i: usize = 0;
    while i < ls.len()
        invariant
            i <= ls.len(),
            m == max_line_number(seqs(ls@).take(i as int)),
        decreases ls.len() - i,
    {
        let n = line_speaker_number_exec(&ls[i]);
        assert(seqs(ls@).take(i + 1).drop_last() =~= seqs(ls@).take(i as int));
        assert(seqs(ls@).take(i + 1).last() == ls@[i as int]@);
        if n > m {
            m = n;
        }
        i += 1;
    }
    assert(seqs(ls@).take(ls.len() as int) =~= seqs(ls@));
    m
}

/// Highest `N` appearing in any line that starts `Speaker N:` (after leading
/// whitespace); 0 when there is none.
pub fn max_speaker_number(text: &str) -> (m: u32)
    ensures
        m == max_speaker(text@),
{
    let v = chars_of(text);
    max_speaker_chars(&v)
}

// ---------------------------------------------------------------------------
// Offsetting speaker numbers
// ---------------------------------------------------------------------------

/// When `line` starts exactly `Speaker <digits>: `, the number it carries.
pub open spec fn numbered_line(line: Seq<char>) -> Option<u32> {
    if speaker_prefix().is_prefix_of(line) {
        let rest = line.skip(8);
        let k = digit_run(rest);
        let after = rest.skip(k as int);
        if k > 0 && seq![':', ' '].is_prefix_of(after) {
            parse_u32(rest.take(k as int))
        } else {
            None
        }
    } else {
        None
    }
}

/// `line` with its `Speaker N: ` prefix renumbered to `N + offset`.
pub open spec fn offset_line(line: Seq<char>, offset: nat) -> Seq<char> {
    match numbered_line(line) {
        Some(n) => speaker_prefix() + dec((n + offset) as nat) + line.skip(8).skip(
            digit_run(line.skip(8)) as int,
        ),
        None => line,
    }
}

/// Every numbered line of `text` stays in `u32` after adding `offset`.
pub open spec fn offset_fits(text: Seq<char>, offset: nat) -> bool {
    forall|i: int|
        0 <= i < lines(text).len() ==> match numbered_line(#[trigger] lines(text)[i]) {
            Some(n) => n + offset <= u32::MAX,
            None => true,
        }
}

/// `offset_speaker_numbers` on `text`.
pub open spec fn offset_numbers(text: Seq<char>, offset: nat) -> Seq<char> {
    join(lines(text).map_values(|l: Seq<char>| offset_line(l, offset)), seq!['\n'])
}

fn numbered_line_exec(line: &[char]) -> (r: Option<(u32, usize)>)
    ensures
        r is None <==> numbered_line(line@) is None,
        r matches Some((n, k)) ==> numbered_line(line@) == Some(n) && k == 8 + digit_run(
            line@.skip(8),
        ) && k <= line.len(),
{
    let p = speaker_prefix_chars();
    if !starts_with_chars(line, &p) {
        return None;
    }
    let rest = slice_sub(line, 8, line.len());
    assert(rest@ =~= line@.skip(8));
    let k = digit_run_exec(&rest);
    let after = slice_sub(&rest, k, rest.len());
    assert(after@ =~= rest@.skip(k as int));
    let cs: Vec<char> = vec![':', ' '];
    assert(cs@ =~= seq![':', ' ']);
    if k == 0 || !starts_with_chars(&after, &cs) {
        return None;
    }
    let d = slice_sub(&rest, 0, k);
    assert(d@ =~= rest@.take(k as int));
    match parse_u32_chars(&d) {
        Some(n) => Some((n, 8 + k)),
        None => None,
    }
}

fn offset_line_exec(line: &[char], offset: u32) -> (r: Vec<char>)
    requires
        match numbered_line(line@) {
            Some(n) => n + offset <= u32::MAX,
            None => true,
        },
    ensures
        r@ == offset_line(line@, offset as nat),
{
    match numbered_line_exec(line) {
        Some((n, k)) => {
            let mut r = speaker_prefix_chars();
            let num = render_u64((n + offset) as u64);
            extend_chars(&mut r, &num);
            let tail = slice_sub(line, k, line.len());
            extend_chars(&mut r, &tail);
            assert(line@.skip(8).skip(digit_run(line@.skip(8)) as int) =~= line@.skip(k as int));
            r
        },
        None => copy_chars(line),
    }
}

fn offset_numbers_chars(text: &[char], offset: u32) -> (r: Vec<char>)
    requires
        offset_fits(text@, offset as nat),
    ensures
        r@ == offset_numbers(text@, offset as nat),
{
    let ls = split_lines(text);
    let mut out: Vec<Vec<char>> = Vec::new();
    let mut i: usize = 0;
    while i < ls.len()
        invariant
            i <= ls.len(),
            seqs(ls@) == lines(text@),
            offset_fits(text@, offset as nat),
            out.len() == i,
            forall|j: int|
                0 <= j < i ==> (#[trigger] out@[j])@ == offset_line(seqs(ls@)[j], offset as nat),
        decreases ls.len() - i,
    {
        assert(seqs(ls@)[i as int] == ls@[i as int]@);
        let o = offset_line_exec(&ls[i], offset);
        out.push(o);
        i += 1;
    }
    let nl: Vec<char> = vec!['\n'];
    assert(nl@ =~= seq!['\n']);
    assert(seqs(out@) =~= lines(text@).map_values(|l: Seq<char>| offset_line(l, offset as nat)));
    join_chars(&out, &nl)
}

/// Rewrite `Speaker N: ` line prefixes to `Speaker N+offset: `. Only that
/// exact pattern at the start of a line is touched, so renamed speakers and
/// mid-sentence mentions stay as they are.
pub fn offset_speaker_numbers(text: &str, offset: u32) -> (r: String)
    requires
        offset_fits(text@, offset as nat),
    ensures
        r@ == offset_numbers(text@, offset as nat),
{
    let v = chars_of(text);
    let o = offset_numbers_chars(&v, offset);
    string_of(&o)
}


/// What `combine_with_snapshot` returns.
pub open spec fn combine(snapshot: Seq<char>, new_session: Seq<char>) -> Seq<char> {
    let snap = trim_end(snapshot);
    let fresh = trim(new_session);
    if snap.len() == 0 {
        new_session
    } else if fresh.len() == 0 {
        snap
    } else {
        let offset = max_speaker(snap);
        snap + seq!['\n'] + (if offset > 0 {
            offset_numbers(fresh, offset)
        } else {
            fresh
        })
    }
}

/// Stitch the prior transcript snapshot to a freshly diarized session: an
/// empty snapshot yields the new text as is; otherwise the new session's
/// `Speaker N:` numbers are shifted past the highest in the snapshot and the
/// two are joined by a newline.
pub fn combine_with_snapshot(snapshot: &str, new_session: &str) -> (r: String)
    requires
        offset_fits(trim(new_session@), max_speaker(trim_end(snapshot@))),
    ensures
        r@ == combine(snapshot@, new_session@),
{
    let sv = chars_of(snapshot);
    let snap = trim_end_chars(&sv);
    if snap.len() == 0 {
        return string_of(&chars_of(new_session));
    }
    let nv = chars_of(new_session);
    let fresh = trim_chars(&nv);
    if fresh.len() == 0 {
        return string_of(&snap);
    }
    let offset = max_speaker_chars(&snap);
    let shifted = if offset > 0 {
        offset_numbers_chars(&fresh, offset)
    } else {
        copy_chars(&fresh)
    };
    let mut out = copy_chars(&snap);
    out.push('\n');
    extend_chars(&mut out, &shifted);
    string_of(&out)
}

/// The highest `N` over the prior-transcript snapshot's lines that start
/// `Speaker N:`: the offset a resumed take's speaker numbers are shifted by.
pub fn session_speaker_offset(snapshot: &str) -> (m: u32)
    ensures
        m == max_speaker(trim_end(snapshot@)),
{
    let sv = chars_of(snapshot);
    let snap = trim_end_chars(&sv);
    max_speaker_chars(&snap)
}

/// A bare label of the form `Speaker <digits>`, with the number it carries
/// (`None` when the digits overflow `u32`).
pub open spec fn numbered_label(label: Seq<char>) -> Option<u32> {
    let rest = label.skip(8);
    if speaker_prefix().is_prefix_of(label) && rest.len() > 0 && all_digits(rest) {
        parse_u32(rest)
    } else {
        None
    }
}

/// What `offset_speaker_label` returns.
pub open spec fn offset_label(label: Seq<char>, offset: nat) -> Seq<char> {
    if offset == 0 {
        label
    } else {
        match numbered_label(label) {
            Some(n) => speaker_prefix() + dec((n + offset) as nat),
            None => label,
        }
    }
}

/// The offset keeps a numbered label in `u32`.
pub open spec fn label_offset_fits(label: Seq<char>, offset: nat) -> bool {
    match numbered_label(label) {
        Some(n) => n + offset <= u32::MAX,
        None => true,
    }
}

fn all_digits_exec(v: &[char]) -> (b: bool)
    ensures
        b == all_digits(v@),
{
    let mut i: usize = 0;
    while i < v.len()
        invariant
            i <= v.len(),
            forall|j: int| 0 <= j < i ==> is_digit(v@[j]),
        decreases v.len() - i,
    {
        if !is_ascii_digit(v[i]) {
            return false;
        }
        i += 1;
    }
    true
}

fn numbered_label_exec(label: &[char]) -> (r: Option<u32>)
    ensures
        r == numbered_label(label@),
{
    let p = speaker_prefix_chars();
    if !starts_with_chars(label, &p) {
        return None;
    }
    let rest = slice_sub(label, 8, label.len());
    assert(rest@ =~= label@.skip(8));
    if rest.len() == 0 || !all_digits_exec(&rest) {
        return None;
    }
    parse_u32_chars(&rest)
}

/// `offset_speaker_label` on a character vector.
pub fn offset_label_chars(label: &[char], offset: u32) -> (r: Vec<char>)
    requires
        label_offset_fits(label@, offset as nat),
    ensures
        r@ == offset_label(label@, offset as nat),
{
    if offset == 0 {
        return copy_chars(label);
    }
    match numbered_label_exec(label) {
        Some(n) => {
            let mut r = speaker_prefix_chars();
            let num = render_u64((n + offset) as u64);
            extend_chars(&mut r, &num);
            r
        },
        None => copy_chars(label),
    }
}

/// `offset_label` computed without the `u32` bound on the new number.
pub fn offset_label_unbounded(label: &[char], offset: u32) -> (r: Vec<char>)
    ensures
        r@ == offset_label(label@, offset as nat),
{
    if offset == 0 {
        return copy_chars(label);
    }
    match numbered_label_exec(label) {
        Some(n) => {
            let mut r = speaker_prefix_chars();
            let num = render_u64((n as u64) + (offset as u64));
            extend_chars(&mut r, &num);
            r
        },
        None => copy_chars(label),
    }
}

/// Offset a bare speaker label: `"Speaker 2"` + 3 → `"Speaker 5"`. Other
/// labels (`"You"`, `"Michael"`, the empty label) pass through untouched.
pub fn offset_speaker_label(label: &str, offset: u32) -> (r: String)
    requires
        label_offset_fits(label@, offset as nat),
    ensures
        r@ == offset_label(label@, offset as nat),
{
    let v = chars_of(label);
    let o = offset_label_chars(&v, offset);
    string_of(&o)
}

/// The labels the pipeline writes itself: the empty label, `You`, and
/// `Speaker <digits>`.
pub open spec fn generated_label(label: Seq<char>) -> bool {
    ||| label.len() == 0
    ||| label == seq!['Y', 'o', 'u']
    ||| (speaker_prefix().is_prefix_of(label) && label.skip(8).len() > 0 && all_digits(
        label.skip(8),
    ))
}

/// `is_generated_label` on a character vector.
pub fn generated_label_chars(label: &[char]) -> (b: bool)
    ensures
        b == generated_label(label@),
{
    if label.len() == 0 {
        return true;
    }
    let you: Vec<char> = vec!['Y', 'o', 'u'];
    if crate::text::chars_eq(label, &you) {
        assert(you@ =~= seq!['Y', 'o', 'u']);
        return true;
    }
    assert(you@ =~= seq!['Y', 'o', 'u']);
    let p = speaker_prefix_chars();
    if !starts_with_chars(label, &p) {
        return false;
    }
    let rest = slice_sub(label, 8, label.len());
    assert(rest@ =~= label@.skip(8));
    rest.len() > 0 && all_digits_exec(&rest)
}

/// Whether a label is one the pipeline emits itself (`Speaker N`, the hybrid
/// mic's `You`, or the empty "no label" marker) rather than a user rename.
pub fn is_generated_label(label: &str) -> (b: bool)
    ensures
        b == generated_label(label@),
{
    let v = chars_of(label);
    generated_label_chars(&v)
}

// ---------------------------------------------------------------------------
// Laws
// ---------------------------------------------------------------------------

pub(crate) proof fn lemma_dec_digits(n: nat)
    ensures
        dec(n).len() > 0,
        all_digits(dec(n)),
        digits_value(dec(n)) == n,
    decreases n,
{
    lemma_digit_char(n % 10);
    if n < 10 {
        assert(n % 10 == n);
        assert(dec(n).drop_last() =~= Seq::<char>::empty());
        assert(dec(n).last() == digit_char(n));
        assert(digits_value(dec(n).drop_last()) == 0);
        assert(digits_value(dec(n)) == digits_value(dec(n).drop_last()) * 10 + ((dec(n).last() as u32) - ('0' as u32)) as nat);
        assert(digits_value(dec(n)) == n);
    } else {
        vstd::arithmetic::div_mod::lemma_fundamental_div_mod(n as int, 10);
        lemma_dec_digits(n / 10);
        let d = dec(n / 10);
        assert(dec(n).drop_last() =~= d);
        assert(dec(n).last() == digit_char(n % 10));
        assert(digits_value(dec(n)) == digits_value(d) * 10 + (n % 10));
        assert forall|i: int| 0 <= i < dec(n).len() implies is_digit(#[trigger] dec(n)[i]) by {
            if i < d.len() {
                assert(dec(n)[i] == d[i]);
            }
        }
    }
}

proof fn lemma_digit_run_props(s: Seq<char>)
    ensures
        digit_run(s) <= s.len(),
        forall|j: int| 0 <= j < digit_run(s) ==> is_digit(#[trigger] s[j]),
        digit_run(s) < s.len() ==> !is_digit(s[digit_run(s) as int]),
    decreases s.len(),
{
    if s.len() > 0 && is_digit(s[0]) {
        lemma_digit_run_props(s.drop_first());
        assert forall|j: int| 0 <= j < digit_run(s) implies is_digit(#[trigger] s[j]) by {
            if j > 0 {
                assert(s[j] == s.drop_first()[j - 1]);
            }
        }
        if digit_run(s) < s.len() {
            assert(s[digit_run(s) as int] == s.drop_first()[digit_run(s.drop_first()) as int]);
        }
    }
}

/// A timeline label and the transcript line it heads are renumbered alike:
/// shifting the line `label: text` by `k` gives the shifted label followed by
/// the same `: text`, for any label without a colon. With the offset that
/// `session_speaker_offset` reports (the one `combine_with_snapshot`
/// applies), a resumed take's timeline and its transcript agree on every
/// speaker.
pub proof fn law_line_and_label_offsets_agree(label: Seq<char>, text: Seq<char>, k: nat)
    requires
        k > 0,
        label.len() > 0,
        forall|i: int| 0 <= i < label.len() ==> label[i] != ':',
    ensures
        offset_line(label + seq![':', ' '] + text, k) == offset_label(label, k) + seq![':', ' '] + text,
{
    let line = label + seq![':', ' '] + text;
    let p = speaker_prefix();
    if p.is_prefix_of(label) {
        assert(p.is_prefix_of(line)) by {
            assert forall|i: int| 0 <= i < p.len() implies p[i] == line[i] by {
                assert(line[i] == label[i]);
            }
        }
        let rest = line.skip(8);
        let lrest = label.skip(8);
        assert(rest =~= lrest + (seq![':', ' '] + text));
        lemma_digit_run_props(rest);
        let d = digit_run(rest);
        if lrest.len() > 0 && all_digits(lrest) {
            assert(rest[lrest.len() as int] == ':');
            lemma_digit_run(rest, lrest.len() as int);
            assert(rest.take(d as int) =~= lrest);
            assert(rest.skip(d as int) =~= seq![':', ' '] + text);
            assert(seq![':', ' '].is_prefix_of(rest.skip(d as int))) by {
                assert(rest.skip(d as int)[0] == ':' && rest.skip(d as int)[1] == ' ');
            }
            assert(numbered_line(line) == numbered_label(label));
            if let Some(n) = numbered_label(label) {
                assert(line.skip(8).skip(digit_run(line.skip(8)) as int) =~= seq![':', ' '] + text);
                assert(offset_line(line, k) =~= offset_label(label, k) + seq![':', ' '] + text);
            }
        } else {
            assert(numbered_label(label) is None);
            if d > 0 {
                if d < lrest.len() {
                    assert(rest[d as int] == lrest[d as int]);
                    assert(lrest[d as int] == label[8 + d as int]);
                    assert(rest.skip(d as int)[0] == rest[d as int]);
                    assert(!seq![':', ' '].is_prefix_of(rest.skip(d as int)));
                } else {
                    assert forall|j: int| 0 <= j < lrest.len() implies is_digit(#[trigger] lrest[j]) by {
                        assert(lrest[j] == rest[j]);
                    }
                    if lrest.len() == 0 {
                        assert(rest[0] == ':');
                    }
                }
            }
            assert(numbered_line(line) is None);
        }
    } else {
        assert(!p.is_prefix_of(line)) by {
            if p.is_prefix_of(line) {
                if label.len() >= 8 {
                    assert forall|i: int| 0 <= i < p.len() implies p[i] == label[i] by {
                        assert(line[i] == label[i]);
                    }
                    assert(p.is_prefix_of(label));
                } else {
                    assert(line[label.len() as int] == ':');
                    assert(p[label.len() as int] != ':');
                }
            }
        }
        assert(numbered_label(label) is None);
    }
}

/// Shifting a label's speaker number twice is shifting it once by the sum:
/// `offset_speaker_label(offset_speaker_label(l, a), b)` equals
/// `offset_speaker_label(l, a + b)`, as long as no number leaves `u32`.
pub proof fn law_label_offsets_compose(label: Seq<char>, a: nat, b: nat)
    requires
        label_offset_fits(label, a + b),
    ensures
        label_offset_fits(label, a),
        label_offset_fits(offset_label(label, a), b),
        offset_label(offset_label(label, a), b) == offset_label(label, a + b),
{
    if let Some(n) = numbered_label(label) {
        if a > 0 {
            let l2 = speaker_prefix() + dec((n + a) as nat);
            lemma_dec_digits((n + a) as nat);
            assert(l2.skip(8) =~= dec((n + a) as nat));
            assert(speaker_prefix().is_prefix_of(l2));
            assert(numbered_label(l2) == Some((n + a) as u32));
        }
    }
}

/// The line a renumbered `Speaker N: ` line becomes still reads
/// `Speaker <N + offset>: ` with the same tail; other lines stay as they are.
proof fn lemma_offset_line_shape(l: Seq<char>, a: nat)
    requires
        numbered_line(l) matches Some(n) ==> n + a <= u32::MAX,
    ensures
        numbered_line(offset_line(l, a)) == (match numbered_line(l) {
            Some(n) => Some((n + a) as u32),
            None => None,
        }),
        numbered_line(l) is Some ==> offset_line(l, a).skip(8).skip(
            digit_run(offset_line(l, a).skip(8)) as int,
        ) == l.skip(8).skip(digit_run(l.skip(8)) as int),
        free_of(l, '\n') && free_of(l, '\r') ==> free_of(offset_line(l, a), '\n') && free_of(
            offset_line(l, a),
            '\r',
        ),
        l.len() > 0 ==> offset_line(l, a).len() > 0,
{
    if let Some(n) = numbered_line(l) {
        let m = (n + a) as nat;
        let tail = l.skip(8).skip(digit_run(l.skip(8)) as int);
        let d = dec(m);
        let l2 = offset_line(l, a);
        lemma_dec_digits(m);
        assert(l2 == speaker_prefix() + d + tail);
        assert(seq![':', ' '].is_prefix_of(tail));
        assert(tail[0] == ':');
        assert(speaker_prefix().is_prefix_of(l2)) by {
            assert forall|i: int| 0 <= i < 8 implies speaker_prefix()[i] == l2[i] by {}
        }
        let rest2 = l2.skip(8);
        assert(rest2 =~= d + tail);
        assert forall|j: int| 0 <= j < d.len() implies is_digit(rest2[j]) by {
            assert(rest2[j] == d[j]);
        }
        assert(rest2[d.len() as int] == ':');
        lemma_digit_run(rest2, d.len() as int);
        assert(rest2.take(d.len() as int) =~= d);
        assert(rest2.skip(d.len() as int) =~= tail);
        assert(is_digit(d[0]));
        assert(parse_u32(d) == Some(m as u32));
        assert(numbered_line(l2) == Some(m as u32));
        if free_of(l, '\n') && free_of(l, '\r') {
            lemma_digit_run_props(l.skip(8));
            let dr = digit_run(l.skip(8)) as int;
            assert forall|i: int| 0 <= i < l2.len() implies l2[i] != '\n' && l2[i] != '\r' by {
                if i < 8 {
                    assert(l2[i] == speaker_prefix()[i]);
                } else if i < 8 + d.len() {
                    assert(l2[i] == d[i - 8]);
                    assert(is_digit(d[i - 8]));
                } else {
                    let j = i - 8 - d.len();
                    assert(l2[i] == tail[j]);
                    assert(tail[j] == l.skip(8)[dr + j]);
                    assert(l.skip(8)[dr + j] == l[8 + dr + j]);
                }
            }
        }
    }
}

/// Renumbering one line twice is renumbering it once by the sum.
proof fn lemma_offset_line_compose(l: Seq<char>, a: nat, b: nat)
    requires
        numbered_line(l) matches Some(n) ==> n + a + b <= u32::MAX,
    ensures
        offset_line(offset_line(l, a), b) == offset_line(l, a + b),
{
    lemma_offset_line_shape(l, a);
}

/// Shifting a transcript's speaker numbers twice is shifting them once by
/// the sum: `offset_speaker_numbers(offset_speaker_numbers(t, a), b)` equals
/// `offset_speaker_numbers(t, a + b)`, for a text without `'\r'` that does
/// not end in a line break, as long as no number leaves `u32`.
pub proof fn law_text_offsets_compose(text: Seq<char>, a: nat, b: nat)
    requires
        free_of(text, '\r'),
        text.len() > 0 ==> text.last() != '\n',
        offset_fits(text, a + b),
    ensures
        offset_fits(text, a),
        offset_fits(offset_numbers(text, a), b),
        offset_numbers(offset_numbers(text, a), b) == offset_numbers(text, a + b),
{
    let ls = lines(text);
    let la = ls.map_values(|l: Seq<char>| offset_line(l, a));
    lemma_lines_shape(text);
    assert forall|i: int| 0 <= i < ls.len() implies match numbered_line(#[trigger] ls[i]) {
        Some(n) => n + a <= u32::MAX,
        None => true,
    } by {
        assert(match numbered_line(ls[i]) {
            Some(n) => n + (a + b) <= u32::MAX,
            None => true,
        });
    }
    assert forall|i: int| 0 <= i < ls.len() implies #[trigger] la[i] == offset_line(ls[i], a) && free_of(
        la[i],
        '\n',
    ) && free_of(la[i], '\r') && numbered_line(la[i]) == (match numbered_line(ls[i]) {
        Some(n) => Some((n + a) as u32),
        None => None,
    }) && offset_line(la[i], b) == offset_line(ls[i], a + b) by {
        assert(match numbered_line(ls[i]) {
            Some(n) => n + (a + b) <= u32::MAX,
            None => true,
        });
        lemma_offset_line_shape(ls[i], a);
        lemma_offset_line_compose(ls[i], a, b);
    }
    if text.len() > 0 {
        lemma_offset_line_shape(ls.last(), a);
        assert(la.last() == offset_line(ls.last(), a));
        lemma_lines_join(la);
    } else {
        assert(ls.len() == 0);
        assert(la =~= Seq::<Seq<char>>::empty());
        assert(lines(join(la, seq!['\n'])) =~= la);
    }
    let mid = offset_numbers(text, a);
    assert(lines(mid) == la);
    assert forall|i: int| 0 <= i < lines(mid).len() implies match numbered_line(#[trigger] lines(mid)[i]) {
        Some(n) => n + b <= u32::MAX,
        None => true,
    } by {
        assert(la[i] == lines(mid)[i]);
        assert(match numbered_line(ls[i]) {
            Some(n) => n + (a + b) <= u32::MAX,
            None => true,
        });
    }
    assert(la.map_values(|l: Seq<char>| offset_line(l, b)) =~= ls.map_values(
        |l: Seq<char>| offset_line(l, a + b),
    ));
}

/// Offsetting never changes whether a label counts as generated.
pub proof fn law_offset_keeps_generated(label: Seq<char>, k: nat)
    requires
        label_offset_fits(label, k),
    ensures
        generated_label(offset_label(label, k)) == generated_label(label),
{
    if k > 0 {
        if let Some(n) = numbered_label(label) {
            let l2 = speaker_prefix() + dec((n + k) as nat);
            lemma_dec_digits((n + k) as nat);
            assert(l2.skip(8) =~= dec((n + k) as nat));
            assert(l2.len() > 3);
            assert(label.len() > 3);
        }
    }
}

} // verus!
