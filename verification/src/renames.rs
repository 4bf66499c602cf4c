//! Carrying user renames across the note-wide unify pass: each freshly
//! numbered speaker takes the custom name that covered most of its speech
//! time in the old timelines.
use vstd::prelude::*;
use crate::types::ChunkSource;
use crate::labels::{seqs_of_strings, LabelMap};
use crate::sessions::{overlap_ms, spans_overlap_ms, LabelSpan};
use crate::speakers::{generated_label, generated_label_chars};
use crate::text::{chars_eq, chars_of, extend_chars, join, join_chars, seqs, string_of};

verus! {

// ---------------------------------------------------------------------------
// Speech time credited to a name
// ---------------------------------------------------------------------------

/// New span `n` may take old span `o`'s name: `n` carries a non-empty
/// pipeline label, `o` a custom one, and they are not known to be on
/// different streams.
pub open spec fn carries(n: LabelSpan, o: LabelSpan) -> bool {
    &&& n.label@.len() > 0
    &&& generated_label(n.label@)
    &&& !generated_label(o.label@)
    &&& !(n.source is Some && o.source is Some && n.source != o.source)
}

/// Overlap of `n` with the first `m` old spans named `name` that it may
/// carry.
pub open spec fn span_credit(n: LabelSpan, olds: Seq<LabelSpan>, name: Seq<char>, m: int) -> nat
    decreases m,
{
    if m <= 0 {
        0
    } else {
        span_credit(n, olds, name, m - 1) + if carries(n, olds[m - 1]) && olds[m - 1].label@ == name {
            overlap_ms(n.start_ms, n.end_ms, olds[m - 1].start_ms, olds[m - 1].end_ms) as nat
        } else {
            0nat
        }
    }
}

/// Speech time the first `m` new spans labelled `k` share with old spans
/// named `name`, within one session.
pub open spec fn session_credit(
    news: Seq<LabelSpan>,
    olds: Seq<LabelSpan>,
    k: Seq<char>,
    name: Seq<char>,
    m: int,
) -> nat
    decreases m,
{
    if m <= 0 {
        0
    } else {
        session_credit(news, olds, k, name, m - 1) + if news[m - 1].label@ == k {
            span_credit(news[m - 1], olds, name, olds.len() as int)
        } else {
            0nat
        }
    }
}

/// Speech time over the first `s` sessions.
pub open spec fn name_credit(
    news: Seq<Vec<LabelSpan>>,
    olds: Seq<Vec<LabelSpan>>,
    k: Seq<char>,
    name: Seq<char>,
    s: int,
) -> nat
    decreases s,
{
    if s <= 0 {
        0
    } else {
        name_credit(news, olds, k, name, s - 1) + session_credit(
            news[s - 1]@,
            olds[s - 1]@,
            k,
            name,
            news[s - 1]@.len() as int,
        )
    }
}

/// Sessions present on both sides.
pub open spec fn paired(news: Seq<Vec<LabelSpan>>, olds: Seq<Vec<LabelSpan>>) -> int {
    if news.len() <= olds.len() {
        news.len() as int
    } else {
        olds.len() as int
    }
}

/// Total speech time new label `k` shares with old custom name `name`,
/// matched session by session.
pub open spec fn total_credit(
    news: Seq<Vec<LabelSpan>>,
    olds: Seq<Vec<LabelSpan>>,
    k: Seq<char>,
    name: Seq<char>,
) -> nat {
    name_credit(news, olds, k, name, paired(news, olds))
}

/// Every pair's shared speech time fits in a `u64`.
pub open spec fn credits_fit(news: Seq<Vec<LabelSpan>>, olds: Seq<Vec<LabelSpan>>) -> bool {
    forall|k: Seq<char>, name: Seq<char>| #[trigger] total_credit(news, olds, k, name) <= u64::MAX
}

/// The credit accumulated after session `s`'s first `ni` new spans, the
/// `ni`-th of them paired with its session's first `oi` old spans.
pub open spec fn partial_credit(
    news: Seq<Vec<LabelSpan>>,
    olds: Seq<Vec<LabelSpan>>,
    k: Seq<char>,
    name: Seq<char>,
    s: int,
    ni: int,
    oi: int,
) -> nat {
    name_credit(news, olds, k, name, s) + session_credit(news[s]@, olds[s]@, k, name, ni) + if 0
        <= ni < news[s]@.len() && news[s]@[ni].label@ == k {
        span_credit(news[s]@[ni], olds[s]@, name, oi)
    } else {
        0nat
    }
}

proof fn lemma_span_credit_mono(n: LabelSpan, olds: Seq<LabelSpan>, name: Seq<char>, a: int, b: int)
    requires
        a <= b,
    ensures
        span_credit(n, olds, name, a) <= span_credit(n, olds, name, b),
    decreases b - a,
{
    if a < b {
        lemma_span_credit_mono(n, olds, name, a, b - 1);
    }
}

proof fn lemma_session_credit_mono(
    news: Seq<LabelSpan>,
    olds: Seq<LabelSpan>,
    k: Seq<char>,
    name: Seq<char>,
    a: int,
    b: int,
)
    requires
        a <= b,
    ensures
        session_credit(news, olds, k, name, a) <= session_credit(news, olds, k, name, b),
    decreases b - a,
{
    if a < b {
        lemma_session_credit_mono(news, olds, k, name, a, b - 1);
    }
}

proof fn lemma_name_credit_mono(
    news: Seq<Vec<LabelSpan>>,
    olds: Seq<Vec<LabelSpan>>,
    k: Seq<char>,
    name: Seq<char>,
    a: int,
    b: int,
)
    requires
        a <= b,
    ensures
        name_credit(news, olds, k, name, a) <= name_credit(news, olds, k, name, b),
    decreases b - a,
{
    if a < b {
        lemma_name_credit_mono(news, olds, k, name, a, b - 1);
    }
}

/// The credit accumulated so far never exceeds the total.
proof fn lemma_partial_le_total(
    news: Seq<Vec<LabelSpan>>,
    olds: Seq<Vec<LabelSpan>>,
    k: Seq<char>,
    name: Seq<char>,
    s: int,
    ni: int,
    oi: int,
)
    requires
        0 <= s < paired(news, olds),
        0 <= ni < news[s]@.len(),
        0 <= oi <= olds[s]@.len(),
    ensures
        partial_credit(news, olds, k, name, s, ni, oi) <= total_credit(news, olds, k, name),
{
    let ns = news[s]@;
    let os = olds[s]@;
    lemma_span_credit_mono(ns[ni], os, name, oi, os.len() as int);
    lemma_session_credit_mono(ns, os, k, name, ni + 1, ns.len() as int);
    lemma_name_credit_mono(news, olds, k, name, s + 1, paired(news, olds));
}

proof fn lemma_span_credit_none(n: LabelSpan, olds: Seq<LabelSpan>, name: Seq<char>, m: int)
    requires
        n.label@.len() == 0 || !generated_label(n.label@),
    ensures
        span_credit(n, olds, name, m) == 0,
    decreases m,
{
    if m > 0 {
        lemma_span_credit_none(n, olds, name, m - 1);
    }
}

// ---------------------------------------------------------------------------
// The running tally
// ---------------------------------------------------------------------------

/// The credit a tally of `(label, name, time)` entries holds for `(k, name)`
/// (0 when it has no entry).
pub open spec fn tally(es: Seq<(Seq<char>, Seq<char>, u64)>, k: Seq<char>, name: Seq<char>) -> int
    decreases es.len(),
{
    if es.len() == 0 {
        0
    } else if es.last().0 == k && es.last().1 == name {
        es.last().2 as int
    } else {
        tally(es.drop_last(), k, name)
    }
}

/// No `(label, name)` pair occurs twice and every entry holds some time.
pub open spec fn tally_wf(es: Seq<(Seq<char>, Seq<char>, u64)>) -> bool {
    &&& forall|i: int, j: int|
        0 <= i < j < es.len() ==> !(#[trigger] es[i].0 == #[trigger] es[j].0 && es[i].1 == es[j].1)
    &&& forall|i: int| 0 <= i < es.len() ==> #[trigger] es[i].2 > 0
}

proof fn lemma_tally_at(es: Seq<(Seq<char>, Seq<char>, u64)>, p: int)
    requires
        tally_wf(es),
        0 <= p < es.len(),
    ensures
        tally(es, es[p].0, es[p].1) == es[p].2,
    decreases es.len(),
{
    if p < es.len() - 1 {
        let d = es.drop_last();
        assert forall|i: int, j: int| 0 <= i < j < d.len() implies !(#[trigger] d[i].0 == #[trigger] d[j].0
            && d[i].1 == d[j].1) by {
            assert(d[i] == es[i] && d[j] == es[j]);
        }
        assert(d[p] == es[p]);
        lemma_tally_at(d, p);
    }
}

proof fn lemma_tally_absent(es: Seq<(Seq<char>, Seq<char>, u64)>, k: Seq<char>, name: Seq<char>)
    requires
        forall|i: int| 0 <= i < es.len() ==> !(#[trigger] es[i].0 == k && es[i].1 == name),
    ensures
        tally(es, k, name) == 0,
    decreases es.len(),
{
    if es.len() > 0 {
        assert(!(es[es.len() - 1].0 == k && es[es.len() - 1].1 == name));
        lemma_tally_absent(es.drop_last(), k, name);
    }
}

proof fn lemma_tally_update(
    es: Seq<(Seq<char>, Seq<char>, u64)>,
    p: int,
    v: u64,
    k: Seq<char>,
    name: Seq<char>,
)
    requires
        tally_wf(es),
        0 <= p < es.len(),
    ensures
        tally(es.update(p, (es[p].0, es[p].1, v)), k, name) == if k == es[p].0 && name == es[p].1 {
            v as int
        } else {
            tally(es, k, name)
        },
    decreases es.len(),
{
    let u = es.update(p, (es[p].0, es[p].1, v));
    if p == es.len() - 1 {
        assert(u.drop_last() =~= es.drop_last());
    } else {
        let d = es.drop_last();
        assert(u.drop_last() =~= d.update(p, (d[p].0, d[p].1, v)));
        assert forall|i: int, j: int| 0 <= i < j < d.len() implies !(#[trigger] d[i].0 == #[trigger] d[j].0
            && d[i].1 == d[j].1) by {
            assert(d[i] == es[i] && d[j] == es[j]);
        }
        lemma_tally_update(d, p, v, k, name);
        if k == es[p].0 && name == es[p].1 {
            assert(!(es.last().0 == es[p].0 && es.last().1 == es[p].1));
        }
    }
}

/// Add `t` to the tally entry of `(k, name)`, creating it if needed.
/// Refused, with the tally left as it was, when the sum would not fit in a
/// `u64`.
fn add_credit(es: &mut Vec<(Vec<char>, Vec<char>, u64)>, k: &Vec<char>, name: &Vec<char>, t: u64) -> (ok: bool)
    requires
        tally_wf(tally_view(old(es)@)),
        t > 0,
    ensures
        ok == (tally(tally_view(old(es)@), k@, name@) + t <= u64::MAX),
        ok ==> tally_wf(tally_view(final(es)@)),
        ok ==> forall|k2: Seq<char>, n2: Seq<char>|
            #[trigger] tally(tally_view(final(es)@), k2, n2) == if k2 == k@ && n2 == name@ {
                tally(tally_view(old(es)@), k2, n2) + t
            } else {
                tally(tally_view(old(es)@), k2, n2)
            },
        !ok ==> final(es)@ == old(es)@,
{
    let ghost ev = tally_view(es@);
    let mut p: usize = 0;
    while p < es.len()
        invariant
            p <= es.len(),
            ev == tally_view(es@),
            ev == tally_view(old(es)@),
            tally_wf(ev),
            t > 0,
            es@ == old(es)@,
            forall|i: int| 0 <= i < p ==> !(#[trigger] ev[i].0 == k@ && ev[i].1 == name@),
        decreases es.len() - p,
    {
        assert(ev[p as int] == (es@[p as int].0@, es@[p as int].1@, es@[p as int].2));
        if chars_eq(&es[p].0, k) && chars_eq(&es[p].1, name) {
            proof {
                lemma_tally_at(ev, p as int);
            }
            if es[p].2 > u64::MAX - t {
                return false;
            }
            let v = es[p].2 + t;
            let kk = crate::text::copy_chars(k);
            let nn = crate::text::copy_chars(name);
            es.set(p, (kk, nn, v));
            proof {
                assert(tally_view(es@) =~= ev.update(p as int, (ev[p as int].0, ev[p as int].1, v)));
                assert forall|k2: Seq<char>, n2: Seq<char>|
                    #[trigger] tally(tally_view(es@), k2, n2) == if k2 == k@ && n2 == name@ {
                        tally(ev, k2, n2) + t
                    } else {
                        tally(ev, k2, n2)
                    } by {
                    lemma_tally_update(ev, p as int, v, k2, n2);
                }
                let nv = tally_view(es@);
                assert forall|i: int, j: int| 0 <= i < j < nv.len() implies !(#[trigger] nv[i].0
                    == #[trigger] nv[j].0 && nv[i].1 == nv[j].1) by {
                    assert(nv[i].0 == ev[i].0 && nv[i].1 == ev[i].1);
                    assert(nv[j].0 == ev[j].0 && nv[j].1 == ev[j].1);
                }
                assert forall|i: int| 0 <= i < nv.len() implies #[trigger] nv[i].2 > 0 by {
                    if i != p {
                        assert(nv[i] == ev[i]);
                    }
                }
            }
            return true;
        }
        p += 1;
    }
    proof {
        lemma_tally_absent(ev, k@, name@);
    }
    es.push((crate::text::copy_chars(k), crate::text::copy_chars(name), t));
    proof {
        let nv = tally_view(es@);
        assert(nv =~= ev.push((k@, name@, t)));
        assert(nv.drop_last() =~= ev);
        assert forall|k2: Seq<char>, n2: Seq<char>|
            #[trigger] tally(nv, k2, n2) == if k2 == k@ && n2 == name@ {
                tally(ev, k2, n2) + t
            } else {
                tally(ev, k2, n2)
            } by {}
        assert forall|i: int, j: int| 0 <= i < j < nv.len() implies !(#[trigger] nv[i].0 == #[trigger] nv[j].0
            && nv[i].1 == nv[j].1) by {
            if j == nv.len() - 1 {
                assert(nv[i] == ev[i]);
            } else {
                assert(nv[i] == ev[i] && nv[j] == ev[j]);
            }
        }
        assert forall|i: int| 0 <= i < nv.len() implies #[trigger] nv[i].2 > 0 by {
            if i < ev.len() {
                assert(nv[i] == ev[i]);
            }
        }
    }
    true
}

/// A tally seen as plain values.
pub open spec fn tally_view(es: Seq<(Vec<char>, Vec<char>, u64)>) -> Seq<(Seq<char>, Seq<char>, u64)> {
    es.map_values(|e: (Vec<char>, Vec<char>, u64)| (e.0@, e.1@, e.2))
}

/// The speech time every (new label, old custom name) pair shares, as a
/// tally with an entry for exactly the pairs that share some.
/// `None` when some pair's speech time does not fit in a `u64`.
fn accumulate(news: &[Vec<LabelSpan>], olds: &[Vec<LabelSpan>]) -> (r: Option<Vec<(Vec<char>, Vec<char>, u64)>>)
    ensures
        match r {
            Some(es) => {
                &&& tally_wf(tally_view(es@))
                &&& forall|k: Seq<char>, name: Seq<char>|
                    #[trigger] tally(tally_view(es@), k, name) == total_credit(news@, olds@, k, name)
            },
            None => !credits_fit(news@, olds@),
        },
{
    let mut es: Vec<(Vec<char>, Vec<char>, u64)> = Vec::new();
    let pairs = if news.len() <= olds.len() {
        news.len()
    } else {
        olds.len()
    };
    let mut s: usize = 0;
    while s < pairs
        invariant
            s <= pairs,
            pairs == paired(news@, olds@),
            tally_wf(tally_view(es@)),
            forall|k: Seq<char>, name: Seq<char>|
                #[trigger] tally(tally_view(es@), k, name) == name_credit(news@, olds@, k, name, s as int),
        decreases pairs - s,
    {
        let ns = &news[s];
        let os = &olds[s];
        let mut ni: usize = 0;
        while ni < ns.len()
            invariant
                s < pairs,
                pairs == paired(news@, olds@),
                ns@ == news@[s as int]@,
                os@ == olds@[s as int]@,
                ni <= ns.len(),
                tally_wf(tally_view(es@)),
                forall|k: Seq<char>, name: Seq<char>|
                    #[trigger] tally(tally_view(es@), k, name) == name_credit(news@, olds@, k, name, s as int)
                        + session_credit(ns@, os@, k, name, ni as int),
            decreases ns.len() - ni,
        {
            let n = &ns[ni];
            let nl = chars_of(n.label.as_str());
            if nl.len() == 0 || !generated_label_chars(&nl) {
                proof {
                    assert forall|k: Seq<char>, name: Seq<char>|
                        session_credit(ns@, os@, k, name, ni + 1) == session_credit(ns@, os@, k, name, ni as int) by {
                        lemma_span_credit_none(*n, os@, name, os@.len() as int);
                    }
                }
            } else {
                let mut oi: usize = 0;
                while oi < os.len()
                    invariant
                        s < pairs,
                        pairs == paired(news@, olds@),
                        ns@ == news@[s as int]@,
                        os@ == olds@[s as int]@,
                        ni < ns.len(),
                        *n == ns@[ni as int],
                        nl@ == n.label@,
                        nl@.len() > 0,
                        generated_label(nl@),
                        oi <= os.len(),
                        tally_wf(tally_view(es@)),
                        forall|k: Seq<char>, name: Seq<char>|
                            #[trigger] tally(tally_view(es@), k, name) == partial_credit(
                                news@,
                                olds@,
                                k,
                                name,
                                s as int,
                                ni as int,
                                oi as int,
                            ),
                    decreases os.len() - oi,
                {
                    let o = &os[oi];
                    let ol = chars_of(o.label.as_str());
                    let source_clash = match (n.source, o.source) {
                        (Some(a), Some(b)) => a != b,
                        _ => false,
                    };
                    let t = if !generated_label_chars(&ol) && !source_clash {
                        spans_overlap_ms(n, o)
                    } else {
                        0
                    };
                    assert(t == (if carries(*n, os@[oi as int]) {
                        overlap_ms(n.start_ms, n.end_ms, o.start_ms, o.end_ms)
                    } else {
                        0
                    }));
                    if t > 0 {
                        proof {
                            lemma_partial_le_total(news@, olds@, nl@, ol@, s as int, ni as int, oi + 1);
                        }
                        if !add_credit(&mut es, &nl, &ol, t) {
                            assert(total_credit(news@, olds@, nl@, ol@) > u64::MAX);
                            return None;
                        }
                    }
                    oi += 1;
                }
            }
            ni += 1;
        }
        s += 1;
    }
    Some(es)
}

proof fn lemma_tally_fits(es: Seq<(Seq<char>, Seq<char>, u64)>, k: Seq<char>, name: Seq<char>)
    ensures
        tally(es, k, name) <= u64::MAX,
    decreases es.len(),
{
    if es.len() > 0 {
        lemma_tally_fits(es.drop_last(), k, name);
    }
}

/// Whether every pair's speech time fits in a `u64`, the width the tally
/// keeps.
pub fn credits_fit_exec(news: &[Vec<LabelSpan>], olds: &[Vec<LabelSpan>]) -> (b: bool)
    ensures
        b == credits_fit(news@, olds@),
{
    match accumulate(news, olds) {
        Some(es) => {
            proof {
                assert forall|k: Seq<char>, name: Seq<char>| #[trigger] total_credit(news@, olds@, k, name) <= u64::MAX by {
                    lemma_tally_fits(tally_view(es@), k, name);
                }
            }
            true
        },
        None => false,
    }
}

// ---------------------------------------------------------------------------
// Ordering names
// ---------------------------------------------------------------------------

/// `a` sorts before `b` as strings: character by character, a proper
/// prefix first.
pub open spec fn str_less(a: Seq<char>, b: Seq<char>) -> bool
    decreases a.len(),
{
    if a.len() == 0 {
        b.len() > 0
    } else if b.len() == 0 {
        false
    } else if a[0] != b[0] {
        a[0] < b[0]
    } else {
        str_less(a.drop_first(), b.drop_first())
    }
}

pub proof fn lemma_str_less_total(a: Seq<char>, b: Seq<char>)
    requires
        a != b,
    ensures
        str_less(a, b) || str_less(b, a),
    decreases a.len(),
{
    if a.len() == 0 && b.len() == 0 {
        assert(a =~= b);
    }
    if a.len() > 0 && b.len() > 0 && a[0] == b[0] {
        if a.drop_first() == b.drop_first() {
            assert(a =~= seq![a[0]] + a.drop_first());
            assert(b =~= seq![b[0]] + b.drop_first());
        }
        lemma_str_less_total(a.drop_first(), b.drop_first());
    }
}

pub proof fn lemma_str_less_irrefl(a: Seq<char>)
    ensures
        !str_less(a, a),
    decreases a.len(),
{
    if a.len() > 0 {
        lemma_str_less_irrefl(a.drop_first());
    }
}

pub proof fn lemma_str_less_trans(a: Seq<char>, b: Seq<char>, c: Seq<char>)
    requires
        str_less(a, b),
        str_less(b, c),
    ensures
        str_less(a, c),
    decreases a.len(),
{
    if a.len() > 0 && b.len() > 0 && c.len() > 0 {
        if a[0] == b[0] && b[0] == c[0] {
            lemma_str_less_trans(a.drop_first(), b.drop_first(), c.drop_first());
        }
    }
}

fn str_less_exec(a: &Vec<char>, b: &Vec<char>) -> (r: bool)
    ensures
        r == str_less(a@, b@),
{
    let mut i: usize = 0;
    assert(a@.skip(0) =~= a@);
    assert(b@.skip(0) =~= b@);
    while i < a.len() && i < b.len() && a[i] == b[i]
        invariant
            i <= a.len(),
            i <= b.len(),
            str_less(a@, b@) == str_less(a@.skip(i as int), b@.skip(i as int)),
        decreases a.len() - i,
    {
        assert(a@.skip(i as int).drop_first() =~= a@.skip(i + 1));
        assert(b@.skip(i as int).drop_first() =~= b@.skip(i + 1));
        i += 1;
    }
    if i == a.len() {
        i < b.len()
    } else if i == b.len() {
        false
    } else {
        a[i] < b[i]
    }
}

/// `(va, a)` ranks before `(vb, b)`: more time first, then by name.
pub open spec fn ranks_before(va: int, a: Seq<char>, vb: int, b: Seq<char>) -> bool {
    va > vb || (va == vb && str_less(a, b))
}

proof fn lemma_ranks_trans(va: int, a: Seq<char>, vb: int, b: Seq<char>, vc: int, c: Seq<char>)
    requires
        ranks_before(va, a, vb, b),
        ranks_before(vb, b, vc, c),
    ensures
        ranks_before(va, a, vc, c),
{
    if va == vb && vb == vc {
        lemma_str_less_trans(a, b, c);
    }
}

/// `names` paired with `vals`, sorted so each ranks before the next.
pub open spec fn ranked_sorted(names: Seq<Seq<char>>, vals: Seq<u64>) -> bool {
    forall|i: int, j: int|
        0 <= i < j < names.len() ==> ranks_before(
            #[trigger] vals[i] as int,
            names[i],
            #[trigger] vals[j] as int,
            names[j],
        )
}

/// Sort distinct names with their times: more time first, then by name.
fn sort_ranked(
    names: &Vec<Vec<char>>,
    vals: &Vec<u64>,
    Ghost(f): Ghost<spec_fn(Seq<char>) -> u64>,
) -> (r: (Vec<Vec<char>>, Vec<u64>))
    requires
        names.len() == vals.len(),
        seqs(names@).no_duplicates(),
        forall|i: int| 0 <= i < names.len() ==> vals@[i] == f(#[trigger] names@[i]@),
    ensures
        r.0.len() == names.len(),
        r.1.len() == names.len(),
        seqs(r.0@).no_duplicates(),
        forall|x: Seq<char>| seqs(r.0@).contains(x) <==> seqs(names@).contains(x),
        forall|j: int| 0 <= j < r.0.len() ==> r.1@[j] == f(#[trigger] r.0@[j]@),
        ranked_sorted(seqs(r.0@), r.1@),
{
    let mut out_n: Vec<Vec<char>> = Vec::new();
    let mut out_v: Vec<u64> = Vec::new();
    let mut k: usize = 0;
    while k < names.len()
        invariant
            k <= names.len(),
            names.len() == vals.len(),
            seqs(names@).no_duplicates(),
            out_n.len() == k,
            out_v.len() == k,
            seqs(out_n@).no_duplicates(),
            forall|x: Seq<char>| seqs(out_n@).contains(x) <==> seqs(names@).take(k as int).contains(x),
            forall|i: int| 0 <= i < names.len() ==> vals@[i] == f(#[trigger] names@[i]@),
            forall|j: int| 0 <= j < out_n.len() ==> out_v@[j] == f(#[trigger] out_n@[j]@),
            ranked_sorted(seqs(out_n@), out_v@),
        decreases names.len() - k,
    {
        let x = crate::text::copy_chars(&names[k]);
        let vx = vals[k];
        let ghost sn = seqs(names@);
        let ghost before_n = seqs(out_n@);
        let ghost before_v = out_v@;
        assert(sn[k as int] == x@);
        assert(!before_n.contains(x@)) by {
            if before_n.contains(x@) {
                assert(sn.take(k as int).contains(x@));
                let tk0 = sn.take(k as int);
                let i = choose|i: int| 0 <= i < tk0.len() && tk0[i] == x@;
                assert(sn[i] == sn[k as int]);
            }
        }
        let mut p: usize = 0;
        while p < out_n.len() && !(vx > out_v[p] || (vx == out_v[p] && str_less_exec(&x, &out_n[p])))
            invariant
                p <= out_n.len(),
                out_n.len() == out_v.len(),
                before_n == seqs(out_n@),
                before_v == out_v@,
                forall|i: int| 0 <= i < p ==> !ranks_before(vx as int, x@, before_v[i] as int, before_n[i]),
            decreases out_n.len() - p,
        {
            p += 1;
        }
        out_n.insert(p, x);
        out_v.insert(p, vx);
        proof {
            let an = seqs(out_n@);
            let av = out_v@;
            assert(an =~= before_n.insert(p as int, x@));
            assert(av =~= before_v.insert(p as int, vx));
            assert forall|i: int| 0 <= i < p implies ranks_before(
                before_v[i] as int,
                before_n[i],
                vx as int,
                x@,
            ) by {
                assert(before_n[i] != x@) by {
                    assert(before_n.contains(before_n[i]));
                }
                if before_v[i] == vx {
                    lemma_str_less_total(before_n[i], x@);
                }
            }
            assert forall|i: int, j: int| 0 <= i < j < an.len() implies ranks_before(
                #[trigger] av[i] as int,
                an[i],
                #[trigger] av[j] as int,
                an[j],
            ) by {
                if j < p {
                    assert(an[i] == before_n[i] && an[j] == before_n[j]);
                    assert(av[i] == before_v[i] && av[j] == before_v[j]);
                } else if j == p {
                    assert(an[i] == before_n[i] && av[i] == before_v[i]);
                } else if i < p {
                    assert(an[i] == before_n[i] && av[i] == before_v[i]);
                    assert(an[j] == before_n[j - 1] && av[j] == before_v[j - 1]);
                    if p < before_n.len() {
                        assert(ranks_before(before_v[i] as int, before_n[i], vx as int, x@));
                        assert(ranks_before(vx as int, x@, before_v[p as int] as int, before_n[p as int]));
                        if j - 1 > p {
                            assert(ranks_before(
                                before_v[p as int] as int,
                                before_n[p as int],
                                before_v[j - 1] as int,
                                before_n[j - 1],
                            ));
                            lemma_ranks_trans(
                                vx as int,
                                x@,
                                before_v[p as int] as int,
                                before_n[p as int],
                                before_v[j - 1] as int,
                                before_n[j - 1],
                            );
                        }
                        lemma_ranks_trans(
                            before_v[i] as int,
                            before_n[i],
                            vx as int,
                            x@,
                            before_v[j - 1] as int,
                            before_n[j - 1],
                        );
                    }
                } else if i == p {
                    assert(an[i] == x@ && av[i] == vx);
                    assert(an[j] == before_n[j - 1] && av[j] == before_v[j - 1]);
                    assert(ranks_before(vx as int, x@, before_v[p as int] as int, before_n[p as int]));
                    if j - 1 > p {
                        lemma_ranks_trans(
                            vx as int,
                            x@,
                            before_v[p as int] as int,
                            before_n[p as int],
                            before_v[j - 1] as int,
                            before_n[j - 1],
                        );
                    }
                } else {
                    assert(an[i] == before_n[i - 1] && av[i] == before_v[i - 1]);
                    assert(an[j] == before_n[j - 1] && av[j] == before_v[j - 1]);
                }
            }
            assert(sn.take(k + 1) =~= sn.take(k as int).push(x@));
            assert forall|y: Seq<char>| an.contains(y) <==> sn.take(k + 1).contains(y) by {
                if an.contains(y) {
                    let i = choose|i: int| 0 <= i < an.len() && an[i] == y;
                    if i < p {
                        assert(before_n[i] == y);
                        assert(before_n.contains(y));
                    } else if i > p {
                        assert(before_n[i - 1] == y);
                        assert(before_n.contains(y));
                    }
                    if y != x@ {
                        assert(sn.take(k as int).contains(y));
                        let tk0 = sn.take(k as int);
                        let q = choose|q: int| 0 <= q < tk0.len() && tk0[q] == y;
                        assert(sn.take(k + 1)[q] == y);
                    } else {
                        assert(sn.take(k + 1)[k as int] == y);
                    }
                }
                if sn.take(k + 1).contains(y) {
                    let tk = sn.take(k + 1);
                    let q = choose|q: int| 0 <= q < tk.len() && tk[q] == y;
                    if q == k {
                        assert(an[p as int] == y);
                    } else {
                        assert(sn.take(k as int)[q] == y);
                        assert(before_n.contains(y));
                        let i = choose|i: int| 0 <= i < before_n.len() && before_n[i] == y;
                        if i < p {
                            assert(an[i] == y);
                        } else {
                            assert(an[i + 1] == y);
                        }
                    }
                }
            }
            assert forall|i: int, j: int| 0 <= i < an.len() && 0 <= j < an.len() && i != j implies an[i] != an[j] by {
                let ii = if i < p { i } else if i == p { -1 } else { i - 1 };
                let jj = if j < p { j } else if j == p { -1 } else { j - 1 };
                if ii >= 0 && jj >= 0 {
                    assert(an[i] == before_n[ii] && an[j] == before_n[jj]);
                } else if ii >= 0 {
                    assert(an[i] == before_n[ii]);
                    assert(before_n.contains(before_n[ii]));
                } else if jj >= 0 {
                    assert(an[j] == before_n[jj]);
                    assert(before_n.contains(before_n[jj]));
                }
            }
            assert forall|j: int| 0 <= j < out_n.len() implies out_v@[j] == f(#[trigger] out_n@[j]@) by {
                if j < p {
                    assert(out_n@[j]@ == before_n[j] && out_v@[j] == before_v[j]);
                } else if j == p {
                    assert(names@[k as int]@ == out_n@[j]@ && vals@[k as int] == out_v@[j]);
                } else {
                    assert(out_n@[j]@ == before_n[j - 1] && out_v@[j] == before_v[j - 1]);
                }
            }
        }
        k += 1;
    }
    assert(seqs(names@).take(names.len() as int) =~= seqs(names@));
    (out_n, out_v)
}

// ---------------------------------------------------------------------------
// The rename map
// ---------------------------------------------------------------------------

/// New label `k` shares speech time with some old custom name.
pub open spec fn has_credit(news: Seq<Vec<LabelSpan>>, olds: Seq<Vec<LabelSpan>>, k: Seq<char>) -> bool {
    exists|name: Seq<char>| #[trigger] total_credit(news, olds, k, name) > 0
}

/// `rs` lists, once each, exactly the custom names sharing speech time with
/// new label `k`, most time first and then by name.
pub open spec fn is_ranking(
    news: Seq<Vec<LabelSpan>>,
    olds: Seq<Vec<LabelSpan>>,
    k: Seq<char>,
    rs: Seq<Seq<char>>,
) -> bool {
    &&& rs.no_duplicates()
    &&& forall|x: Seq<char>| rs.contains(x) <==> #[trigger] total_credit(news, olds, k, x) > 0
    &&& forall|i: int, j: int|
        0 <= i < j < rs.len() ==> ranks_before(
            total_credit(news, olds, k, #[trigger] rs[i]) as int,
            rs[i],
            total_credit(news, olds, k, #[trigger] rs[j]) as int,
            rs[j],
        )
}

/// The notice for a cluster that several custom names landed in: the
/// winner first, the others in rank order.
pub open spec fn notice_text(rs: Seq<Seq<char>>) -> Seq<char> {
    "Speaker unification detected \""@ + rs[0] + "\" and \""@ + join(rs.skip(1), "\" and \""@)
        + "\" as the same voice — kept \""@ + rs[0] + "\" (more speech time). Rename the speaker to adjust."@
}

/// The notices of the rankings `rks`, in order, for those with two or
/// more names.
pub open spec fn notices_of(rks: Seq<Seq<Seq<char>>>) -> Seq<Seq<char>>
    decreases rks.len(),
{
    if rks.len() == 0 {
        seq![]
    } else {
        notices_of(rks.drop_last()) + if rks.last().len() >= 2 {
            seq![notice_text(rks.last())]
        } else {
            seq![]
        }
    }
}

proof fn lemma_tally_positive(es: Seq<(Seq<char>, Seq<char>, u64)>, k: Seq<char>, name: Seq<char>)
    requires
        tally(es, k, name) != 0,
    ensures
        exists|i: int| 0 <= i < es.len() && #[trigger] es[i].0 == k && es[i].1 == name,
{
    if !(exists|i: int| 0 <= i < es.len() && #[trigger] es[i].0 == k && es[i].1 == name) {
        lemma_tally_absent(es, k, name);
    }
}

fn build_notice(rs: &Vec<Vec<char>>) -> (r: String)
    requires
        rs.len() >= 2,
    ensures
        r@ == notice_text(seqs(rs@)),
{
    let sep = chars_of("\" and \"");
    let mut losers: Vec<Vec<char>> = Vec::new();
    let mut i: usize = 1;
    while i < rs.len()
        invariant
            1 <= i <= rs.len(),
            seqs(losers@) == seqs(rs@).skip(1).take(i - 1),
        decreases rs.len() - i,
    {
        let ghost before = seqs(losers@);
        losers.push(crate::text::copy_chars(&rs[i]));
        assert(seqs(losers@) =~= before.push(rs@[i as int]@));
        assert(seqs(rs@).skip(1)[i - 1] == rs@[i as int]@);
        assert(seqs(rs@).skip(1).take(i as int) =~= seqs(rs@).skip(1).take(i - 1).push(rs@[i as int]@));
        i += 1;
    }
    assert(seqs(rs@).skip(1).take(rs.len() - 1) =~= seqs(rs@).skip(1));
    let mut out = chars_of("Speaker unification detected \"");
    extend_chars(&mut out, &rs[0]);
    extend_chars(&mut out, &sep);
    let j = join_chars(&losers, &sep);
    extend_chars(&mut out, &j);
    extend_chars(&mut out, &chars_of("\" as the same voice — kept \""));
    extend_chars(&mut out, &rs[0]);
    extend_chars(&mut out, &chars_of("\" (more speech time). Rename the speaker to adjust."));
    assert(seqs(rs@)[0] == rs@[0]@);
    string_of(&out)
}

/// The rename map (as pairs) and notices the carry-over gives for these
/// spans: keys in ascending order, exactly the labels that share time with
/// some custom name, each mapped to the first name of a ranking of its names
/// (most shared time first, ties to the name that sorts first), and the
/// notices those rankings give.
pub open spec fn renames_ok(
    news: Seq<Vec<LabelSpan>>,
    olds: Seq<Vec<LabelSpan>>,
    pairs: Seq<(Seq<char>, Seq<char>)>,
    notices: Seq<Seq<char>>,
) -> bool {
    &&& forall|i: int, j: int|
        0 <= i < j < pairs.len() ==> str_less(#[trigger] pairs[i].0, #[trigger] pairs[j].0)
    &&& forall|k: Seq<char>|
        #[trigger] has_credit(news, olds, k) <==> pairs.map_values(|p: (Seq<char>, Seq<char>)| p.0).contains(k)
    &&& exists|rks: Seq<Seq<Seq<char>>>|
        #![trigger notices_of(rks)]
        rks.len() == pairs.len() && (forall|i: int|
            0 <= i < rks.len() ==> is_ranking(news, olds, pairs[i].0, #[trigger] rks[i]) && rks[i].len() > 0
                && pairs[i].1 == rks[i][0]) && notices == notices_of(rks)
}

/// Carry user renames onto the freshly numbered labels. For each new label
/// that the pipeline generated (never the empty one), speech-time overlap is
/// summed against old custom names, session by session and within one
/// stream when both sides record theirs. Each such label maps to the name
/// with the most shared time (ties to the name that sorts first), keys in
/// ascending order; where two or more names land on one label, a notice
/// says which was kept.
pub fn custom_name_map(news: &[Vec<LabelSpan>], olds: &[Vec<LabelSpan>]) -> (r: (LabelMap, Vec<String>))
    requires
        credits_fit(news@, olds@),
    ensures
        renames_ok(news@, olds@, r.0.pairs(), seqs_of_strings(r.1@)),
{
    let es = match accumulate(news, olds) {
        Some(es) => es,
        None => {
            proof {
                assert(false);
            }
            Vec::new()
        },
    };
    let ghost ev = tally_view(es@);
    // Distinct labels, in first-seen order.
    let mut keys: Vec<Vec<char>> = Vec::new();
    let mut zeros: Vec<u64> = Vec::new();
    let mut i: usize = 0;
    while i < es.len()
        invariant
            i <= es.len(),
            ev == tally_view(es@),
            keys.len() == zeros.len(),
            forall|j: int| 0 <= j < zeros.len() ==> #[trigger] zeros@[j] == 0,
            seqs(keys@).no_duplicates(),
            forall|x: Seq<char>|
                seqs(keys@).contains(x) <==> exists|j: int| 0 <= j < i && #[trigger] ev[j].0 == x,
        decreases es.len() - i,
    {
        assert(ev[i as int].0 == es@[i as int].0@);
        let ghost before = seqs(keys@);
        let mut found = false;
        let mut q: usize = 0;
        while q < keys.len()
            invariant
                q <= keys.len(),
                i < es.len(),
                before == seqs(keys@),
                found ==> before.contains(es@[i as int].0@),
                !found ==> forall|t: int| 0 <= t < q ==> before[t] != es@[i as int].0@,
            decreases keys.len() - q,
        {
            if chars_eq(&keys[q], &es[i].0) {
                assert(before[q as int] == es@[i as int].0@);
                found = true;
            }
            q += 1;
        }
        if !found {
            keys.push(crate::text::copy_chars(&es[i].0));
            zeros.push(0);
            proof {
                let nk = seqs(keys@);
                assert(nk =~= before.push(ev[i as int].0));
                assert forall|a: int, b: int| 0 <= a < nk.len() && 0 <= b < nk.len() && a != b implies nk[a]
                    != nk[b] by {
                    if a < before.len() && b < before.len() {
                    } else if a < before.len() {
                        assert(before[a] != ev[i as int].0);
                    } else if b < before.len() {
                        assert(before[b] != ev[i as int].0);
                    }
                }
                assert forall|x: Seq<char>| nk.contains(x) <==> exists|j: int| 0 <= j < i + 1 && #[trigger] ev[j].0 == x by {
                    if nk.contains(x) {
                        let a = choose|a: int| 0 <= a < nk.len() && nk[a] == x;
                        if a < before.len() {
                            assert(before.contains(x));
                        } else {
                            assert(ev[i as int].0 == x);
                        }
                    }
                    if exists|j: int| 0 <= j < i + 1 && #[trigger] ev[j].0 == x {
                        let j = choose|j: int| 0 <= j < i + 1 && #[trigger] ev[j].0 == x;
                        if j < i {
                            assert(before.contains(x));
                            let a = choose|a: int| 0 <= a < before.len() && before[a] == x;
                            assert(nk[a] == x);
                        } else {
                            assert(nk[before.len() as int] == x);
                        }
                    }
                }
            }
        } else {
            proof {
                assert forall|x: Seq<char>| before.contains(x) <==> exists|j: int| 0 <= j < i + 1 && #[trigger] ev[j].0 == x by {
                    if exists|j: int| 0 <= j < i + 1 && #[trigger] ev[j].0 == x {
                        let j = choose|j: int| 0 <= j < i + 1 && #[trigger] ev[j].0 == x;
                        if j == i {
                            assert(before.contains(ev[i as int].0));
                        }
                    }
                }
            }
        }
        i += 1;
    }
    proof {
        assert forall|x: Seq<char>| seqs(keys@).contains(x) <==> #[trigger] has_credit(news@, olds@, x) by {
            if seqs(keys@).contains(x) {
                let j = choose|j: int| 0 <= j < es.len() && #[trigger] ev[j].0 == x;
                lemma_tally_at(ev, j);
                assert(total_credit(news@, olds@, x, ev[j].1) > 0);
            }
            if has_credit(news@, olds@, x) {
                let name = choose|name: Seq<char>| #[trigger] total_credit(news@, olds@, x, name) > 0;
                assert(tally(ev, x, name) > 0);
                lemma_tally_positive(ev, x, name);
            }
        }
    }
    let (sorted_keys, _) = sort_ranked(&keys, &zeros, Ghost(|x: Seq<char>| 0u64));
    assert forall|x: Seq<char>| seqs(sorted_keys@).contains(x) implies #[trigger] has_credit(news@, olds@, x) by {
        assert(seqs(keys@).contains(x));
    }
    let mut pairs: Vec<(String, String)> = Vec::new();
    let mut notices: Vec<String> = Vec::new();
    let ghost mut rks: Seq<Seq<Seq<char>>> = seq![];
    let mut t: usize = 0;
    while t < sorted_keys.len()
        invariant
            t <= sorted_keys.len(),
            ev == tally_view(es@),
            tally_wf(ev),
            forall|k: Seq<char>, name: Seq<char>|
                #[trigger] tally(ev, k, name) == total_credit(news@, olds@, k, name),
            forall|k: Seq<char>, name: Seq<char>| #[trigger] total_credit(news@, olds@, k, name) <= u64::MAX,
            forall|x: Seq<char>| seqs(sorted_keys@).contains(x) ==> #[trigger] has_credit(news@, olds@, x),
            pairs.len() == t,
            rks.len() == t,
            forall|a: int| 0 <= a < t ==> #[trigger] pairs@[a].0@ == sorted_keys@[a]@,
            forall|a: int|
                0 <= a < t ==> is_ranking(news@, olds@, sorted_keys@[a]@, #[trigger] rks[a])
                    && rks[a].len() > 0 && pairs@[a].1@ == rks[a][0],
            seqs_of_strings(notices@) == notices_of(rks),
        decreases sorted_keys.len() - t,
    {
        let k = &sorted_keys[t];
        let ghost kv = k@;
        // This label's names and their times.
        let mut names: Vec<Vec<char>> = Vec::new();
        let mut vals: Vec<u64> = Vec::new();
        let mut e: usize = 0;
        while e < es.len()
            invariant
                e <= es.len(),
                ev == tally_view(es@),
                tally_wf(ev),
                kv == k@,
                names.len() == vals.len(),
                forall|k2: Seq<char>, name: Seq<char>|
                    #[trigger] tally(ev, k2, name) == total_credit(news@, olds@, k2, name),
                forall|k2: Seq<char>, name: Seq<char>| #[trigger] total_credit(news@, olds@, k2, name) <= u64::MAX,
                seqs(names@).no_duplicates(),
                forall|a: int| 0 <= a < names.len() ==> vals@[a] == (total_credit(news@, olds@, kv, #[trigger] names@[a]@) as u64),
                forall|x: Seq<char>|
                    seqs(names@).contains(x) <==> exists|j: int| 0 <= j < e && #[trigger] ev[j].0 == kv && ev[j].1 == x,
            decreases es.len() - e,
        {
            assert(ev[e as int] == (es@[e as int].0@, es@[e as int].1@, es@[e as int].2));
            let ghost before = seqs(names@);
            if chars_eq(&es[e].0, k) {
                proof {
                    lemma_tally_at(ev, e as int);
                    assert(!before.contains(ev[e as int].1)) by {
                        if before.contains(ev[e as int].1) {
                            let j = choose|j: int| 0 <= j < e && #[trigger] ev[j].0 == kv && ev[j].1 == ev[e as int].1;
                            assert(false);
                        }
                    }
                }
                names.push(crate::text::copy_chars(&es[e].1));
                vals.push(es[e].2);
                proof {
                    let nn = seqs(names@);
                    assert(nn =~= before.push(ev[e as int].1));
                    assert forall|a: int, b: int| 0 <= a < nn.len() && 0 <= b < nn.len() && a != b implies nn[a]
                        != nn[b] by {
                        if a < before.len() && b < before.len() {
                        } else if a < before.len() {
                            assert(before.contains(before[a]));
                        } else if b < before.len() {
                            assert(before.contains(before[b]));
                        }
                    }
                    assert forall|x: Seq<char>| nn.contains(x) <==> exists|j: int|
                        0 <= j < e + 1 && #[trigger] ev[j].0 == kv && ev[j].1 == x by {
                        if nn.contains(x) {
                            let a = choose|a: int| 0 <= a < nn.len() && nn[a] == x;
                            if a < before.len() {
                                assert(before.contains(x));
                            }
                        }
                        if exists|j: int| 0 <= j < e + 1 && #[trigger] ev[j].0 == kv && ev[j].1 == x {
                            let j = choose|j: int| 0 <= j < e + 1 && #[trigger] ev[j].0 == kv && ev[j].1 == x;
                            if j < e {
                                assert(before.contains(x));
                                let a = choose|a: int| 0 <= a < before.len() && before[a] == x;
                                assert(nn[a] == x);
                            } else {
                                assert(nn[before.len() as int] == x);
                            }
                        }
                    }
                }
            } else {
                proof {
                    assert forall|x: Seq<char>| before.contains(x) <==> exists|j: int|
                        0 <= j < e + 1 && #[trigger] ev[j].0 == kv && ev[j].1 == x by {
                        if exists|j: int| 0 <= j < e + 1 && #[trigger] ev[j].0 == kv && ev[j].1 == x {
                            let j = choose|j: int| 0 <= j < e + 1 && #[trigger] ev[j].0 == kv && ev[j].1 == x;
                            assert(j != e);
                        }
                    }
                }
            }
            e += 1;
        }
        let ghost f = |x: Seq<char>| total_credit(news@, olds@, kv, x) as u64;
        let (ranked, _) = sort_ranked(&names, &vals, Ghost(f));
        let ghost rk = seqs(ranked@);
        proof {
            assert forall|x: Seq<char>| rk.contains(x) <==> #[trigger] total_credit(news@, olds@, kv, x) > 0 by {
                if rk.contains(x) {
                    assert(seqs(names@).contains(x));
                    let j = choose|j: int| 0 <= j < es.len() && #[trigger] ev[j].0 == kv && ev[j].1 == x;
                    lemma_tally_at(ev, j);
                }
                if total_credit(news@, olds@, kv, x) > 0 {
                    assert(tally(ev, kv, x) > 0);
                    lemma_tally_positive(ev, kv, x);
                    let j = choose|j: int| 0 <= j < es.len() && #[trigger] ev[j].0 == kv && ev[j].1 == x;
                    assert(seqs(names@).contains(x));
                }
            }
            assert forall|a: int, b: int| 0 <= a < b < rk.len() implies ranks_before(
                total_credit(news@, olds@, kv, #[trigger] rk[a]) as int,
                rk[a],
                total_credit(news@, olds@, kv, #[trigger] rk[b]) as int,
                rk[b],
            ) by {
                assert(rk[a] == ranked@[a]@ && rk[b] == ranked@[b]@);
            }
            assert(is_ranking(news@, olds@, kv, rk));
            assert(has_credit(news@, olds@, kv)) by {
                assert(seqs(sorted_keys@)[t as int] == kv);
                assert(seqs(sorted_keys@).contains(kv));
            }
            let name = choose|name: Seq<char>| #[trigger] total_credit(news@, olds@, kv, name) > 0;
            assert(rk.contains(name));
        }
        let winner = string_of(&ranked[0]);
        let key = string_of(k);
        pairs.push((key, winner));
        let ghost prev_rks = rks;
        proof {
            rks = rks.push(rk);
            assert(rks.drop_last() =~= prev_rks);
        }
        if ranked.len() >= 2 {
            let ghost before_n = seqs_of_strings(notices@);
            notices.push(build_notice(&ranked));
            assert(seqs_of_strings(notices@) =~= before_n.push(notice_text(rk)));
        } else {
            assert(notices_of(rks) =~= notices_of(prev_rks));
        }
        assert forall|a: int|
            0 <= a < t + 1 implies is_ranking(news@, olds@, sorted_keys@[a]@, #[trigger] rks[a]) && rks[a].len() > 0
                && pairs@[a].1@ == rks[a][0] by {
            if a == t {
                assert(rk[0] == ranked@[0]@);
            }
        }
        t += 1;
    }
    let map = LabelMap { entries: pairs };
    proof {
        let ps = map.pairs();
        assert forall|a: int, b: int| 0 <= a < b < ps.len() implies str_less(#[trigger] ps[a].0, #[trigger] ps[b].0) by {
            assert(ps[a].0 == sorted_keys@[a]@ && ps[b].0 == sorted_keys@[b]@);
            assert(seqs(sorted_keys@)[a] == sorted_keys@[a]@);
            assert(seqs(sorted_keys@)[b] == sorted_keys@[b]@);
        }
        let ks = ps.map_values(|p: (Seq<char>, Seq<char>)| p.0);
        assert(ks =~= seqs(sorted_keys@));
        assert forall|k: Seq<char>| #[trigger] has_credit(news@, olds@, k) <==> ks.contains(k) by {
            assert(seqs(sorted_keys@).contains(k) <==> seqs(keys@).contains(k));
        }
        assert forall|a: int| 0 <= a < rks.len() implies is_ranking(news@, olds@, ps[a].0, #[trigger] rks[a])
            && rks[a].len() > 0 && ps[a].1 == rks[a][0] by {
            assert(ps[a].0 == sorted_keys@[a]@);
        }
    }
    (map, notices)
}

// ---------------------------------------------------------------------------
// Laws
// ---------------------------------------------------------------------------

proof fn lemma_span_credit_positive(n: LabelSpan, olds: Seq<LabelSpan>, name: Seq<char>, m: int)
    requires
        span_credit(n, olds, name, m) > 0,
    ensures
        n.label@.len() > 0 && generated_label(n.label@) && !generated_label(name),
    decreases m,
{
    if m > 0 {
        if span_credit(n, olds, name, m - 1) > 0 {
            lemma_span_credit_positive(n, olds, name, m - 1);
        }
    }
}

proof fn lemma_session_credit_positive(
    news: Seq<LabelSpan>,
    olds: Seq<LabelSpan>,
    k: Seq<char>,
    name: Seq<char>,
    m: int,
)
    requires
        session_credit(news, olds, k, name, m) > 0,
    ensures
        k.len() > 0 && generated_label(k) && !generated_label(name),
    decreases m,
{
    if m > 0 {
        if session_credit(news, olds, k, name, m - 1) > 0 {
            lemma_session_credit_positive(news, olds, k, name, m - 1);
        } else {
            lemma_span_credit_positive(news[m - 1], olds, name, olds.len() as int);
        }
    }
}

proof fn lemma_name_credit_positive(
    news: Seq<Vec<LabelSpan>>,
    olds: Seq<Vec<LabelSpan>>,
    k: Seq<char>,
    name: Seq<char>,
    s: int,
)
    requires
        name_credit(news, olds, k, name, s) > 0,
    ensures
        k.len() > 0 && generated_label(k) && !generated_label(name),
    decreases s,
{
    if s > 0 {
        if name_credit(news, olds, k, name, s - 1) > 0 {
            lemma_name_credit_positive(news, olds, k, name, s - 1);
        } else {
            lemma_session_credit_positive(
                news[s - 1]@,
                olds[s - 1]@,
                k,
                name,
                news[s - 1]@.len() as int,
            );
        }
    }
}

/// Only pipeline labels are ever renamed (never the empty label of an
/// unlabelled piece, never a name the user already gave), and only to a
/// name the user gave.
pub proof fn law_renames_map_generated_to_custom(
    news: Seq<Vec<LabelSpan>>,
    olds: Seq<Vec<LabelSpan>>,
    k: Seq<char>,
    name: Seq<char>,
)
    requires
        total_credit(news, olds, k, name) > 0,
    ensures
        k.len() > 0,
        generated_label(k),
        !generated_label(name),
{
    lemma_name_credit_positive(news, olds, k, name, paired(news, olds));
}

} // verus!
