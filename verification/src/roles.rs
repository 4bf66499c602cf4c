//! Workspace membership: the member, admin and viewer lists a workspace
//! record keeps, how a role change or a removal rewrites them, and the role
//! they give a user back.
use vstd::prelude::*;
use crate::cloud::role_of;
use crate::labels::seqs_of_strings;
use crate::text::{chars_eq, chars_of, extend_chars, string_of};

verus! {

/// The three relation lists of a workspace record.
#[derive(Debug)]
pub struct Relations {
    pub members: Vec<String>,
    pub admins: Vec<String>,
    pub viewers: Vec<String>,
}

/// `xs` without any occurrence of `u`, in order.
pub open spec fn without(xs: Seq<Seq<char>>, u: Seq<char>) -> Seq<Seq<char>>
    decreases xs.len(),
{
    if xs.len() == 0 {
        seq![]
    } else {
        without(xs.drop_last(), u) + if xs.last() == u {
            Seq::<Seq<char>>::empty()
        } else {
            seq![xs.last()]
        }
    }
}

/// `xs` with `u` appended unless it is already there.
pub open spec fn with_once(xs: Seq<Seq<char>>, u: Seq<char>) -> Seq<Seq<char>> {
    if xs.contains(u) {
        xs
    } else {
        xs.push(u)
    }
}

/// `xs` with each of `ys` appended, in order, unless already there.
pub open spec fn with_all(xs: Seq<Seq<char>>, ys: Seq<Seq<char>>) -> Seq<Seq<char>>
    decreases ys.len(),
{
    if ys.len() == 0 {
        xs
    } else {
        with_once(with_all(xs, ys.drop_last()), ys.last())
    }
}

/// The relation lists as plain values.
pub open spec fn rel_view(r: Relations) -> (Seq<Seq<char>>, Seq<Seq<char>>, Seq<Seq<char>>) {
    (seqs_of_strings(r.members@), seqs_of_strings(r.admins@), seqs_of_strings(r.viewers@))
}

/// The lists after giving `u` role `role` (`admin`, `viewer` or `member`):
/// the admin and viewer lists are exclusive, and every admin and viewer is
/// kept a member. `None` for any other role.
pub open spec fn role_update(
    rel: (Seq<Seq<char>>, Seq<Seq<char>>, Seq<Seq<char>>),
    u: Seq<char>,
    role: Seq<char>,
) -> Option<(Seq<Seq<char>>, Seq<Seq<char>>, Seq<Seq<char>>)> {
    let (members, admins, viewers) = rel;
    let lists = if role == "admin"@ {
        Some((with_once(admins, u), without(viewers, u)))
    } else if role == "viewer"@ {
        Some((without(admins, u), with_once(viewers, u)))
    } else if role == "member"@ {
        Some((without(admins, u), without(viewers, u)))
    } else {
        None
    };
    match lists {
        Some((a, v)) => Some((with_all(members, a + v), a, v)),
        None => None,
    }
}

proof fn lemma_concat_contains(a: Seq<Seq<char>>, b: Seq<Seq<char>>, x: Seq<char>)
    ensures
        (a + b).contains(x) <==> (a.contains(x) || b.contains(x)),
{
    if a.contains(x) {
        let i = choose|i: int| 0 <= i < a.len() && a[i] == x;
        assert((a + b)[i] == x);
    }
    if b.contains(x) {
        let i = choose|i: int| 0 <= i < b.len() && b[i] == x;
        assert((a + b)[a.len() + i] == x);
    }
    if (a + b).contains(x) {
        let i = choose|i: int| 0 <= i < (a + b).len() && (a + b)[i] == x;
        if i < a.len() {
            assert(a[i] == x);
        } else {
            assert(b[i - a.len()] == x);
        }
    }
}

proof fn lemma_last_contains(xs: Seq<Seq<char>>, x: Seq<char>)
    requires
        xs.len() > 0,
    ensures
        xs.contains(x) <==> (xs.drop_last().contains(x) || xs.last() == x),
{
    assert(xs =~= xs.drop_last() + seq![xs.last()]);
    lemma_concat_contains(xs.drop_last(), seq![xs.last()], x);
    if seq![xs.last()].contains(x) {
        let i = choose|i: int| 0 <= i < 1 && seq![xs.last()][i] == x;
    }
    if xs.last() == x {
        assert(seq![xs.last()][0] == x);
    }
}

proof fn lemma_with_once(xs: Seq<Seq<char>>, u: Seq<char>, x: Seq<char>)
    ensures
        with_once(xs, u).contains(x) <==> (xs.contains(x) || x == u),
{
    if !xs.contains(u) {
        lemma_last_contains(xs.push(u), x);
        assert(xs.push(u).drop_last() =~= xs);
    }
}

proof fn lemma_without(xs: Seq<Seq<char>>, u: Seq<char>)
    ensures
        forall|x: Seq<char>| #[trigger] without(xs, u).contains(x) <==> (xs.contains(x) && x != u),
    decreases xs.len(),
{
    if xs.len() > 0 {
        lemma_without(xs.drop_last(), u);
        let w = without(xs.drop_last(), u);
        let tail = if xs.last() == u {
            Seq::<Seq<char>>::empty()
        } else {
            seq![xs.last()]
        };
        assert forall|x: Seq<char>| #[trigger] without(xs, u).contains(x) <==> (xs.contains(x) && x != u) by {
            lemma_concat_contains(w, tail, x);
            lemma_last_contains(xs, x);
            assert(w.contains(x) <==> (xs.drop_last().contains(x) && x != u));
            if tail.contains(x) {
                let i = choose|i: int| 0 <= i < tail.len() && tail[i] == x;
            }
            if xs.last() == x && x != u {
                assert(tail[0] == x);
            }
        }
    } else {
        assert forall|x: Seq<char>| #[trigger] without(xs, u).contains(x) <==> (xs.contains(x) && x != u) by {
            if xs.contains(x) {
                let i = choose|i: int| 0 <= i < xs.len() && xs[i] == x;
            }
            if without(xs, u).contains(x) {
                let i = choose|i: int| 0 <= i < without(xs, u).len() && without(xs, u)[i] == x;
            }
        }
    }
}

proof fn lemma_with_all(xs: Seq<Seq<char>>, ys: Seq<Seq<char>>)
    ensures
        forall|x: Seq<char>| #[trigger] with_all(xs, ys).contains(x) <==> (xs.contains(x) || ys.contains(x)),
    decreases ys.len(),
{
    if ys.len() > 0 {
        lemma_with_all(xs, ys.drop_last());
        let p = with_all(xs, ys.drop_last());
        assert forall|x: Seq<char>| #[trigger] with_all(xs, ys).contains(x) <==> (xs.contains(x) || ys.contains(x)) by {
            lemma_with_once(p, ys.last(), x);
            lemma_last_contains(ys, x);
            assert(p.contains(x) <==> (xs.contains(x) || ys.drop_last().contains(x)));
        }
    } else {
        assert forall|x: Seq<char>| #[trigger] with_all(xs, ys).contains(x) <==> (xs.contains(x) || ys.contains(x)) by {
            if ys.contains(x) {
                let i = choose|i: int| 0 <= i < ys.len() && ys[i] == x;
            }
        }
    }
}

/// `xs` with every occurrence of `u` removed.
fn retain_others(xs: &Vec<String>, u: &Vec<char>) -> (r: Vec<String>)
    ensures
        seqs_of_strings(r@) == without(seqs_of_strings(xs@), u@),
{
    let ghost sx = seqs_of_strings(xs@);
    let mut r: Vec<String> = Vec::new();
    let mut i: usize = 0;
    while i < xs.len()
        invariant
            i <= xs.len(),
            sx == seqs_of_strings(xs@),
            seqs_of_strings(r@) == without(sx.take(i as int), u@),
        decreases xs.len() - i,
    {
        assert(sx.take(i + 1).drop_last() =~= sx.take(i as int));
        assert(sx.take(i + 1).last() == xs@[i as int]@);
        let x = chars_of(xs[i].as_str());
        if !chars_eq(&x, u) {
            let ghost before = seqs_of_strings(r@);
            r.push(string_of(&x));
            assert(seqs_of_strings(r@) =~= before.push(x@));
        } else {
            assert(without(sx.take(i + 1), u@) =~= without(sx.take(i as int), u@));
        }
        i += 1;
    }
    assert(sx.take(xs.len() as int) =~= sx);
    r
}

fn holds(xs: &Vec<String>, u: &Vec<char>) -> (b: bool)
    ensures
        b == seqs_of_strings(xs@).contains(u@),
{
    let mut i: usize = 0;
    while i < xs.len()
        invariant
            i <= xs.len(),
            forall|j: int| 0 <= j < i ==> (#[trigger] xs@[j])@ != u@,
        decreases xs.len() - i,
    {
        if chars_eq(&chars_of(xs[i].as_str()), u) {
            assert(seqs_of_strings(xs@)[i as int] == u@);
            return true;
        }
        i += 1;
    }
    assert forall|j: int| 0 <= j < xs.len() implies seqs_of_strings(xs@)[j] != u@ by {
        assert(seqs_of_strings(xs@)[j] == xs@[j]@);
    }
    false
}

/// Append `u` to `xs` unless it is already there.
fn push_once(xs: &mut Vec<String>, u: &Vec<char>)
    ensures
        seqs_of_strings(final(xs)@) == with_once(seqs_of_strings(old(xs)@), u@),
{
    if !holds(xs, u) {
        let ghost before = seqs_of_strings(xs@);
        xs.push(string_of(u));
        assert(seqs_of_strings(xs@) =~= before.push(u@));
    }
}

fn copy_strings(xs: &Vec<String>) -> (r: Vec<String>)
    ensures
        seqs_of_strings(r@) == seqs_of_strings(xs@),
{
    let mut r: Vec<String> = Vec::new();
    let mut i: usize = 0;
    while i < xs.len()
        invariant
            i <= xs.len(),
            seqs_of_strings(r@) == seqs_of_strings(xs@).take(i as int),
        decreases xs.len() - i,
    {
        let ghost before = seqs_of_strings(r@);
        r.push(string_of(&chars_of(xs[i].as_str())));
        assert(seqs_of_strings(r@) =~= before.push(xs@[i as int]@));
        assert(seqs_of_strings(xs@).take(i + 1) =~= seqs_of_strings(xs@).take(i as int).push(xs@[i as int]@));
        i += 1;
    }
    assert(seqs_of_strings(xs@).take(xs.len() as int) =~= seqs_of_strings(xs@));
    r
}

/// Give `user_id` the role `role` (`admin`, `viewer` or `member`; the owner
/// is not changed here): admins and viewers are mutually exclusive, and every
/// admin and viewer is also kept in the member list, which drives read
/// access. Any other role is refused with `unknown role: <role>`.
pub fn set_member_role(rel: &Relations, user_id: &str, role: &str) -> (r: Result<Relations, String>)
    ensures
        match r {
            Ok(n) => role_update(rel_view(*rel), user_id@, role@) == Some(rel_view(n)),
            Err(m) => role_update(rel_view(*rel), user_id@, role@) is None && m@ == "unknown role: "@ + role@,
        },
{
    let u = chars_of(user_id);
    let rv = chars_of(role);
    let (admins, viewers) = if chars_eq(&rv, &chars_of("admin")) {
        let mut a = copy_strings(&rel.admins);
        push_once(&mut a, &u);
        (a, retain_others(&rel.viewers, &u))
    } else if chars_eq(&rv, &chars_of("viewer")) {
        let mut v = copy_strings(&rel.viewers);
        push_once(&mut v, &u);
        (retain_others(&rel.admins, &u), v)
    } else if chars_eq(&rv, &chars_of("member")) {
        (retain_others(&rel.admins, &u), retain_others(&rel.viewers, &u))
    } else {
        let mut m = chars_of("unknown role: ");
        extend_chars(&mut m, &rv);
        return Err(string_of(&m));
    };
    let mut members = copy_strings(&rel.members);
    let ghost base = seqs_of_strings(rel.members@);
    let ghost sa = seqs_of_strings(admins@);
    let ghost sv = seqs_of_strings(viewers@);
    let mut i: usize = 0;
    while i < admins.len()
        invariant
            i <= admins.len(),
            sa == seqs_of_strings(admins@),
            seqs_of_strings(members@) == with_all(base, sa.take(i as int)),
        decreases admins.len() - i,
    {
        assert(sa.take(i + 1).drop_last() =~= sa.take(i as int));
        assert(sa.take(i + 1).last() == admins@[i as int]@);
        push_once(&mut members, &chars_of(admins[i].as_str()));
        i += 1;
    }
    assert(sa.take(admins.len() as int) =~= sa);
    let mut j: usize = 0;
    while j < viewers.len()
        invariant
            j <= viewers.len(),
            sv == seqs_of_strings(viewers@),
            seqs_of_strings(members@) == with_all(base, sa + sv.take(j as int)),
        decreases viewers.len() - j,
    {
        assert((sa + sv.take(j + 1)).drop_last() =~= sa + sv.take(j as int));
        assert((sa + sv.take(j + 1)).last() == viewers@[j as int]@);
        push_once(&mut members, &chars_of(viewers[j].as_str()));
        j += 1;
    }
    assert(sa + sv.take(viewers.len() as int) =~= sa + sv);
    if j == 0 {
        assert(sa + sv.take(0) =~= sa);
    }
    Ok(Relations { members, admins, viewers })
}

/// Remove `user_id` from the workspace: from the member, admin and viewer
/// lists alike.
pub fn remove_member(rel: &Relations, user_id: &str) -> (r: Relations)
    ensures
        rel_view(r) == ({
            let (m, a, v) = rel_view(*rel);
            (without(m, user_id@), without(a, user_id@), without(v, user_id@))
        }),
{
    let u = chars_of(user_id);
    Relations {
        members: retain_others(&rel.members, &u),
        admins: retain_others(&rel.admins, &u),
        viewers: retain_others(&rel.viewers, &u),
    }
}

/// Add `user_id` as a plain member: the new member list, or `None` when they
/// already are one (nothing to write).
pub fn add_member(members: &Vec<String>, user_id: &str) -> (r: Option<Vec<String>>)
    ensures
        match r {
            Some(m) => !seqs_of_strings(members@).contains(user_id@) && seqs_of_strings(m@) == seqs_of_strings(
                members@,
            ).push(user_id@),
            None => seqs_of_strings(members@).contains(user_id@),
        },
{
    let u = chars_of(user_id);
    if holds(members, &u) {
        return None;
    }
    let mut m = copy_strings(members);
    push_once(&mut m, &u);
    Some(m)
}

/// After a role change, reading the user's role back gives the role set
/// (for anyone but the owner).
pub proof fn law_role_read_back(
    rel: (Seq<Seq<char>>, Seq<Seq<char>>, Seq<Seq<char>>),
    owner: Option<Seq<char>>,
    u: Seq<char>,
    role: Seq<char>,
)
    requires
        owner != Some(u),
        role_update(rel, u, role) is Some,
    ensures
        ({
            let (_, a, v) = role_update(rel, u, role).unwrap();
            role_of(owner, a, v, u) == role
        }),
{
    let (m, admins, viewers) = rel;
    lemma_without(admins, u);
    lemma_without(viewers, u);
    if role == "admin"@ {
        assert(with_once(admins, u).contains(u)) by {
            if !admins.contains(u) {
                assert(admins.push(u)[admins.len() as int] == u);
            }
        }
    } else if role == "viewer"@ {
        assert(!without(admins, u).contains(u));
        assert(with_once(viewers, u).contains(u)) by {
            if !viewers.contains(u) {
                assert(viewers.push(u)[viewers.len() as int] == u);
            }
        }
    } else {
        assert(!without(admins, u).contains(u));
        assert(!without(viewers, u).contains(u));
    }
}

/// After a role change every admin and viewer is a member, as before, and
/// no one is both an admin and a viewer if no one was before.
pub proof fn law_roles_stay_members(
    rel: (Seq<Seq<char>>, Seq<Seq<char>>, Seq<Seq<char>>),
    u: Seq<char>,
    role: Seq<char>,
    x: Seq<char>,
)
    requires
        role_update(rel, u, role) is Some,
    ensures
        ({
            let (m, a, v) = role_update(rel, u, role).unwrap();
            &&& (a.contains(x) || v.contains(x)) ==> m.contains(x)
            &&& rel.0.contains(x) ==> m.contains(x)
            &&& !(rel.1.contains(x) && rel.2.contains(x)) ==> !(a.contains(x) && v.contains(x))
        }),
{
    let (members, admins, viewers) = rel;
    lemma_without(admins, u);
    lemma_without(viewers, u);
    let (m, a, v) = role_update(rel, u, role).unwrap();
    lemma_with_all(members, a + v);
    if a.contains(x) {
        let i = choose|i: int| 0 <= i < a.len() && a[i] == x;
        assert((a + v)[i] == x);
    }
    if v.contains(x) {
        let i = choose|i: int| 0 <= i < v.len() && v[i] == x;
        assert((a + v)[a.len() + i] == x);
    }
    if role == "admin"@ && with_once(admins, u).contains(x) && !admins.contains(x) {
        assert(x == u) by {
            let i = choose|i: int| 0 <= i < admins.push(u).len() && admins.push(u)[i] == x;
            if i < admins.len() {
                assert(admins[i] == x);
            }
        }
    }
    if role == "viewer"@ && with_once(viewers, u).contains(x) && !viewers.contains(x) {
        assert(x == u) by {
            let i = choose|i: int| 0 <= i < viewers.push(u).len() && viewers.push(u)[i] == x;
            if i < viewers.len() {
                assert(viewers[i] == x);
            }
        }
    }
}

/// After a removal the user holds no role and no membership.
pub proof fn law_removed_user_is_gone(rel: (Seq<Seq<char>>, Seq<Seq<char>>, Seq<Seq<char>>), owner: Option<Seq<char>>, u: Seq<char>)
    requires
        owner != Some(u),
    ensures
        !without(rel.0, u).contains(u),
        role_of(owner, without(rel.1, u), without(rel.2, u), u) == "member"@,
{
    lemma_without(rel.0, u);
    lemma_without(rel.1, u);
    lemma_without(rel.2, u);
}

} // verus!
