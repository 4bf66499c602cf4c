//! Edits to a session's timeline as it is read back from disk: rewriting the
//! text of one rendered turn, and the entries a repair writes for transcript
//! lines that no timeline accounts for.
use vstd::prelude::*;
use crate::repair::{split_label, split_label_spec};
use crate::speakers::{dec, render_u64};
use crate::text::{chars_of, extend_chars, join, join_chars, split_whitespace, split_ws, string_of};
use crate::timeline::TimelineWord;
use crate::types::ChunkSource;

verus! {

/// One entry of a timeline file as read back: bounds, label, text, word
/// timings and, where the file records it, the capture stream.
#[derive(Debug)]
pub struct StoredEntry {
    pub start_ms: u64,
    pub end_ms: u64,
    pub label: String,
    pub text: String,
    pub words: Vec<TimelineWord>,
    pub source: Option<ChunkSource>,
}

/// One line of a timeline file that parsed: an entry object, or a value of
/// some other kind (a malformed line).
#[derive(Debug)]
pub enum StoredLine {
    Entry(StoredEntry),
    NotAnObject,
}

/// Length of the slot each synthesized entry is given on the playback axis.
pub const SYNTHESIZED_ENTRY_MS: u64 = 5000;

/// The replacement text as one transcript line: its words joined by single
/// spaces (surrounding space dropped, newlines folded).
pub open spec fn squash_ws(s: Seq<char>) -> Seq<char> {
    join(split_ws(s), seq![' '])
}

/// Why index `idx` cannot be edited, if it cannot.
pub open spec fn index_problem(lines: Seq<StoredLine>, idx: usize) -> Option<Seq<char>> {
    if idx >= lines.len() {
        Some(
            "chunk_idx "@ + dec(idx as nat) + " out of bounds (timeline has "@ + dec(lines.len())
                + " entries)"@,
        )
    } else if lines[idx as int] is NotAnObject {
        Some("timeline entry "@ + dec(idx as nat) + " is not an object"@)
    } else {
        None
    }
}

/// The problem with the first index, from position `k` on, that has one.
pub open spec fn first_problem(lines: Seq<StoredLine>, idxs: Seq<usize>, k: int) -> Option<Seq<char>>
    decreases idxs.len() - k,
{
    if k < 0 || k >= idxs.len() {
        None
    } else {
        match index_problem(lines, idxs[k]) {
            Some(m) => Some(m),
            None => first_problem(lines, idxs, k + 1),
        }
    }
}

/// The error a turn edit over `idxs` is refused with, if it is refused: an
/// empty index list, else the first index that is out of bounds or names a
/// line that is not an entry.
pub open spec fn group_edit_error(lines: Seq<StoredLine>, idxs: Seq<usize>) -> Option<Seq<char>> {
    if idxs.len() == 0 {
        Some("no chunk indices given"@)
    } else {
        first_problem(lines, idxs, 0)
    }
}

/// The smallest index of a non-empty list.
pub open spec fn min_index(idxs: Seq<usize>) -> usize
    decreases idxs.len(),
{
    if idxs.len() <= 1 {
        idxs[0]
    } else {
        let m = min_index(idxs.drop_last());
        if idxs.last() < m {
            idxs.last()
        } else {
            m
        }
    }
}

/// `now` is entry `before` with its text replaced by `text` and its word
/// timings dropped; bounds, label and stream kept.
pub open spec fn rewritten(now: StoredLine, before: StoredLine, text: Seq<char>) -> bool {
    match (now, before) {
        (StoredLine::Entry(n), StoredLine::Entry(o)) => {
            &&& n.start_ms == o.start_ms
            &&& n.end_ms == o.end_ms
            &&& n.label == o.label
            &&& n.source == o.source
            &&& n.text@ == text
            &&& n.words@.len() == 0
        },
        _ => false,
    }
}

/// Whether index `k` is one of `idxs`.
pub open spec fn names(idxs: Seq<usize>, k: int) -> bool {
    exists|w: int| 0 <= w < idxs.len() && idxs[w] as int == k
}

/// The text index `k` of a turn over `idxs` gets: the replacement for the
/// lowest index, nothing for the rest.
pub open spec fn turn_text(idxs: Seq<usize>, k: int, new_text: Seq<char>) -> Seq<char> {
    if k == min_index(idxs) {
        squash_ws(new_text)
    } else {
        seq![]
    }
}

fn problem_message(lines: &Vec<StoredLine>, idx: usize) -> (r: Option<String>)
    ensures
        match r {
            Some(m) => index_problem(lines@, idx) == Some(m@),
            None => index_problem(lines@, idx) is None,
        },
{
    if idx >= lines.len() {
        let mut m = chars_of("chunk_idx ");
        extend_chars(&mut m, &render_u64(idx as u64));
        extend_chars(&mut m, &chars_of(" out of bounds (timeline has "));
        extend_chars(&mut m, &render_u64(lines.len() as u64));
        extend_chars(&mut m, &chars_of(" entries)"));
        return Some(string_of(&m));
    }
    match &lines[idx] {
        StoredLine::NotAnObject => {
            let mut m = chars_of("timeline entry ");
            extend_chars(&mut m, &render_u64(idx as u64));
            extend_chars(&mut m, &chars_of(" is not an object"));
            Some(string_of(&m))
        },
        StoredLine::Entry(_) => None,
    }
}

/// Rewrite the text of one rendered turn (the run of same-label entries the
/// reader shows as one paragraph) in a session's timeline lines.
///
/// The replacement, with its words joined by single spaces, lands in the
/// lowest index and every other entry of the run is emptied, so the turn
/// re-derives as one transcript line; word timings are dropped on every entry
/// of the run, and bounds, labels and stream stay. No line is added or
/// removed. An empty index list, an index out of bounds or one naming a line
/// that is not an entry is refused before anything is written.
pub fn apply_group_text(entries: &mut Vec<StoredLine>, chunk_idxs: &[usize], new_text: &str) -> (r: Result<(), String>)
    ensures
        match r {
            Ok(()) => {
                &&& group_edit_error(old(entries)@, chunk_idxs@) is None
                &&& final(entries)@.len() == old(entries)@.len()
                &&& forall|k: int|
                    0 <= k < final(entries)@.len() ==> if names(chunk_idxs@, k) {
                        rewritten(
                            #[trigger] final(entries)@[k],
                            old(entries)@[k],
                            turn_text(chunk_idxs@, k, new_text@),
                        )
                    } else {
                        final(entries)@[k] == old(entries)@[k]
                    }
            },
            Err(m) => {
                &&& group_edit_error(old(entries)@, chunk_idxs@) == Some(m@)
                &&& final(entries)@ == old(entries)@
            },
        },
{
    if chunk_idxs.len() == 0 {
        return Err(string_of(&chars_of("no chunk indices given")));
    }
    let ghost orig = entries@;
    let ghost idxs = chunk_idxs@;
    let mut k: usize = 0;
    while k < chunk_idxs.len()
        invariant
            k <= chunk_idxs.len(),
            entries@ == orig,
            idxs == chunk_idxs@,
            first_problem(orig, idxs, 0) == first_problem(orig, idxs, k as int),
            forall|j: int|
                0 <= j < k ==> idxs[j] < orig.len() && (#[trigger] orig[idxs[j] as int]) is Entry,
        decreases chunk_idxs.len() - k,
    {
        match problem_message(entries, chunk_idxs[k]) {
            Some(m) => {
                return Err(m);
            },
            None => {},
        }
        k += 1;
    }
    let words = split_whitespace(&chars_of(new_text));
    let sep: Vec<char> = vec![' '];
    let text = join_chars(&words, &sep);
    assert(sep@ =~= seq![' ']);
    assert(text@ == squash_ws(new_text@));
    let mut low = chunk_idxs[0];
    let mut j: usize = 1;
    while j < chunk_idxs.len()
        invariant
            1 <= j <= chunk_idxs.len(),
            idxs == chunk_idxs@,
            low == min_index(idxs.take(j as int)),
        decreases chunk_idxs.len() - j,
    {
        assert(idxs.take(j + 1).drop_last() =~= idxs.take(j as int));
        if chunk_idxs[j] < low {
            low = chunk_idxs[j];
        }
        j += 1;
    }
    assert(idxs.take(idxs.len() as int) =~= idxs);
    let mut j: usize = 0;
    while j < chunk_idxs.len()
        invariant
            j <= chunk_idxs.len(),
            idxs == chunk_idxs@,
            low == min_index(idxs),
            text@ == squash_ws(new_text@),
            entries@.len() == orig.len(),
            forall|i: int| 0 <= i < idxs.len() ==> idxs[i] < orig.len() && (#[trigger] orig[idxs[i] as int]) is Entry,
            forall|p: int|
                0 <= p < entries@.len() ==> if names(idxs.take(j as int), p) {
                    rewritten(#[trigger] entries@[p], orig[p], turn_text(idxs, p, new_text@))
                } else {
                    entries@[p] == orig[p]
                },
        decreases chunk_idxs.len() - j,
    {
        let idx = chunk_idxs[j];
        assert(idxs[j as int] == idx);
        assert(orig[idx as int] is Entry);
        let ghost before = entries@;
        let replaced = match &entries[idx] {
            StoredLine::Entry(e) => {
                let t = if idx == low {
                    string_of(&text)
                } else {
                    let none: Vec<char> = Vec::new();
                    string_of(&none)
                };
                StoredLine::Entry(
                    StoredEntry {
                        start_ms: e.start_ms,
                        end_ms: e.end_ms,
                        label: e.label.clone(),
                        text: t,
                        words: Vec::new(),
                        source: e.source,
                    },
                )
            },
            StoredLine::NotAnObject => {
                proof {
                    if names(idxs.take(j as int), idx as int) {
                        assert(rewritten(before[idx as int], orig[idx as int], turn_text(idxs, idx as int, new_text@)));
                    }
                }
                StoredLine::NotAnObject
            },
        };
        entries.set(idx, replaced);
        proof {
            assert forall|p: int| 0 <= p < entries@.len() implies if names(idxs.take(j + 1), p) {
                rewritten(#[trigger] entries@[p], orig[p], turn_text(idxs, p, new_text@))
            } else {
                entries@[p] == orig[p]
            } by {
                if p == idx as int {
                    assert(idxs.take(j + 1)[j as int] == idx);
                    if !names(idxs.take(j as int), idx as int) {
                        assert(before[p] == orig[p]);
                    }
                } else {
                    assert(entries@[p] == before[p]);
                    if names(idxs.take(j + 1), p) {
                        let w = choose|w: int| 0 <= w < j + 1 && #[trigger] idxs.take(j + 1)[w] as int == p;
                        assert(idxs.take(j + 1)[j as int] == idx);
                        assert(w != j as int);
                        assert(idxs.take(j as int)[w] as int == p);
                    } else {
                        if names(idxs.take(j as int), p) {
                            let w = choose|w: int| 0 <= w < j && #[trigger] idxs.take(j as int)[w] as int == p;
                            assert(idxs.take(j + 1)[w] as int == p);
                        }
                    }
                }
            }
        }
        j += 1;
    }
    assert(idxs.take(idxs.len() as int) =~= idxs);
    proof {
        lemma_no_problem(orig, idxs, 0);
    }
    Ok(())
}

proof fn lemma_no_problem(lines: Seq<StoredLine>, idxs: Seq<usize>, k: int)
    requires
        0 <= k <= idxs.len(),
        forall|i: int| 0 <= i < idxs.len() ==> idxs[i] < lines.len() && (#[trigger] lines[idxs[i] as int]) is Entry,
    ensures
        first_problem(lines, idxs, k) is None,
    decreases idxs.len() - k,
{
    if k < idxs.len() {
        assert(lines[idxs[k] as int] is Entry);
        lemma_no_problem(lines, idxs, k + 1);
    }
}

/// The timeline entry a repair writes for orphaned transcript line `i`: the
/// line's speaker label (empty when it has none) and its words, in the `i`-th
/// five-second slot, with no word timings and no stream.
pub open spec fn orphan_entry_ok(e: StoredEntry, line: Seq<char>, i: int) -> bool {
    let (label, text) = split_label_spec(line);
    &&& e.start_ms == i * SYNTHESIZED_ENTRY_MS
    &&& e.end_ms == (i + 1) * SYNTHESIZED_ENTRY_MS
    &&& e.label@ == (match label {
        Some(l) => l,
        None => Seq::<char>::empty(),
    })
    &&& e.text@ == text
    &&& e.words@.len() == 0
    &&& e.source is None
}

/// The entries of a session synthesized for orphaned transcript lines: each
/// line keeps whatever speaker label it carried, and none gets invented word
/// timings.
pub fn synthesize_orphan_entries(lines: &[&str]) -> (r: Vec<StoredEntry>)
    requires
        (lines@.len() + 1) * SYNTHESIZED_ENTRY_MS <= u64::MAX,
    ensures
        r@.len() == lines@.len(),
        forall|i: int| 0 <= i < r@.len() ==> orphan_entry_ok(#[trigger] r@[i], lines@[i]@, i),
{
    let mut r: Vec<StoredEntry> = Vec::new();
    let mut i: usize = 0;
    while i < lines.len()
        invariant
            i <= lines.len(),
            (lines@.len() + 1) * SYNTHESIZED_ENTRY_MS <= u64::MAX,
            r@.len() == i,
            forall|k: int| 0 <= k < i ==> orphan_entry_ok(#[trigger] r@[k], lines@[k]@, k),
        decreases lines.len() - i,
    {
        let (label, text) = split_label(lines[i]);
        assert((i + 1) * SYNTHESIZED_ENTRY_MS <= (lines@.len() + 1) * SYNTHESIZED_ENTRY_MS) by (nonlinear_arith)
            requires
                i < lines@.len(),
        ;
        let start = (i as u64) * SYNTHESIZED_ENTRY_MS;
        let label = match label {
            Some(l) => l,
            None => {
                let none: Vec<char> = Vec::new();
                string_of(&none)
            },
        };
        let e = StoredEntry {
            start_ms: start,
            end_ms: start + SYNTHESIZED_ENTRY_MS,
            label,
            text,
            words: Vec::new(),
            source: None,
        };
        r.push(e);
        i += 1;
    }
    r
}

} // verus!
