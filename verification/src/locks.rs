//! The recording lock that keeps two teammates from recording into one
//! workspace note at once: the decisions of a claim, between the cloud calls
//! the caller makes.
use vstd::prelude::*;
use crate::text::{chars_eq, chars_of, contains_chars, contains_sub, string_of};

verus! {

/// How a claim ended.
#[derive(Debug)]
pub enum LockClaim {
    /// The lock is ours, under this record id.
    Granted(String),
    /// Someone else holds it; their display name.
    Held(String),
    /// No coordination: a personal note, no cloud, or a cloud failure.
    Skipped,
}

/// Why creating the lock record failed.
#[derive(Debug)]
pub enum LockError {
    /// The note is already locked (the server's uniqueness rule refused it).
    Conflict,
    Other(String),
}

/// The lock record currently on a note.
#[derive(Debug)]
pub struct ExistingLock {
    pub id: String,
    pub holder_id: String,
    pub holder_name: String,
}

/// Where a claim stands between two cloud calls.
#[derive(Debug)]
pub enum ClaimState {
    /// The first create is under way.
    Creating,
    /// The first create conflicted; the current lock is being looked up.
    LookingUp,
    /// The lock vanished between the conflict and the lookup: one clean retry.
    Retrying,
    /// Someone else's lock is being deleted (the server only lets a stale one
    /// go); their name is kept for the report.
    Reaping(String),
    /// The last create, after the reap.
    Reclaiming(String),
}

/// What a cloud call came back with.
#[derive(Debug)]
pub enum ClaimEvent {
    Created(Result<String, LockError>),
    Found(Result<Option<ExistingLock>, String>),
    /// The delete finished; its outcome does not matter.
    Deleted,
}

/// What the caller does next.
#[derive(Debug)]
pub enum ClaimAction {
    /// Create the lock record.
    Create,
    /// Look up the note's current lock.
    Lookup,
    /// Delete the lock record with this id.
    Delete(String),
    /// The claim is over.
    Finish(Result<LockClaim, String>),
}

/// Whether `event` answers the call that `state` is waiting on.
pub open spec fn answers(state: ClaimState, event: ClaimEvent) -> bool {
    match state {
        ClaimState::LookingUp => event is Found,
        ClaimState::Reaping(_) => event is Deleted,
        _ => event is Created,
    }
}

/// How many cloud calls a claim in `state` can still make at most.
pub open spec fn calls_left(state: ClaimState) -> nat {
    match state {
        ClaimState::Creating => 4,
        ClaimState::LookingUp => 3,
        ClaimState::Reaping(_) => 2,
        ClaimState::Retrying => 1,
        ClaimState::Reclaiming(_) => 1,
    }
}

/// The finished claim a create outcome gives, with `conflict` as the report
/// when the note is still locked.
pub open spec fn create_finish(r: Result<String, LockError>, conflict: Seq<char>) -> (Seq<char>, Seq<char>, bool) {
    match r {
        Ok(id) => ("granted"@, id@, true),
        Err(LockError::Conflict) => ("held"@, conflict, true),
        Err(LockError::Other(e)) => ("error"@, e@, false),
    }
}

/// A finished claim as (kind, text, succeeded): `granted` with the lock id,
/// `held` with the holder's name, `skipped`, or `error` with the message.
pub open spec fn finish_view(r: Result<LockClaim, String>) -> (Seq<char>, Seq<char>, bool) {
    match r {
        Ok(LockClaim::Granted(id)) => ("granted"@, id@, true),
        Ok(LockClaim::Held(n)) => ("held"@, n@, true),
        Ok(LockClaim::Skipped) => ("skipped"@, Seq::<char>::empty(), true),
        Err(e) => ("error"@, e@, false),
    }
}

/// `a teammate`: who holds a lock that was there and then was not.
pub open spec fn someone() -> Seq<char> {
    "a teammate"@
}

/// The first call of a claim.
pub fn claim_start() -> (r: (ClaimState, ClaimAction))
    ensures
        r.0 is Creating,
        r.1 is Create,
{
    (ClaimState::Creating, ClaimAction::Create)
}

/// The next state and action of a claim after a cloud call came back with
/// `event`; `me` is the signed-in user's id, and the state is `None` once
/// the claim is over. The first create wins outright or fails; a conflict
/// looks the lock up. A lock that is already ours (left from a failed start)
/// is reused; one that vanished meanwhile gets one clean retry; someone
/// else's is deleted (which the server allows only once it has expired) and
/// the create is tried once more, a conflict then reporting its holder.
pub fn claim_step(state: ClaimState, event: ClaimEvent, me: &str) -> (r: (Option<ClaimState>, ClaimAction))
    requires
        answers(state, event),
    ensures
        r.0 is None <==> r.1 is Finish,
        r.0 matches Some(next) ==> calls_left(next) < calls_left(state),
        match (state, event) {
            (ClaimState::Creating, ClaimEvent::Created(c)) => match c {
                Ok(id) => r.1 matches ClaimAction::Finish(f) && finish_view(f) == ("granted"@, id@, true),
                Err(LockError::Conflict) => (r.0 matches Some(ClaimState::LookingUp)) && r.1 is Lookup,
                Err(LockError::Other(e)) => r.1 matches ClaimAction::Finish(f) && finish_view(f) == ("error"@, e@, false),
            },
            (ClaimState::LookingUp, ClaimEvent::Found(f)) => match f {
                Err(e) => r.1 matches ClaimAction::Finish(g) && finish_view(g) == ("error"@, e@, false),
                Ok(None) => (r.0 matches Some(ClaimState::Retrying)) && r.1 is Create,
                Ok(Some(ex)) => if ex.holder_id@ == me@ {
                    r.1 matches ClaimAction::Finish(g) && finish_view(g) == ("granted"@, ex.id@, true)
                } else {
                    (r.0 matches Some(ClaimState::Reaping(n)) && n@ == ex.holder_name@) && (
                    r.1 matches ClaimAction::Delete(id) && id@ == ex.id@)
                },
            },
            (ClaimState::Retrying, ClaimEvent::Created(c)) => r.1 matches ClaimAction::Finish(g) && finish_view(g)
                == create_finish(c, someone()),
            (ClaimState::Reaping(n), ClaimEvent::Deleted) => (r.0 matches Some(ClaimState::Reclaiming(m)) && m@
                == n@) && r.1 is Create,
            (ClaimState::Reclaiming(n), ClaimEvent::Created(c)) => r.1 matches ClaimAction::Finish(g) && finish_view(g)
                == create_finish(c, n@),
            _ => false,
        },
{
    match state {
        ClaimState::Creating => match event {
            ClaimEvent::Created(Ok(id)) => (None, ClaimAction::Finish(Ok(LockClaim::Granted(id)))),
            ClaimEvent::Created(Err(LockError::Conflict)) => (Some(ClaimState::LookingUp), ClaimAction::Lookup),
            ClaimEvent::Created(Err(LockError::Other(e))) => (None, ClaimAction::Finish(Err(e))),
            _ => {
                proof {
                    assert(false);
                }
                (None, ClaimAction::Create)
            },
        },
        ClaimState::LookingUp => match event {
            ClaimEvent::Found(Err(e)) => (None, ClaimAction::Finish(Err(e))),
            ClaimEvent::Found(Ok(None)) => (Some(ClaimState::Retrying), ClaimAction::Create),
            ClaimEvent::Found(Ok(Some(ex))) => {
                if chars_eq(&chars_of(ex.holder_id.as_str()), &chars_of(me)) {
                    (None, ClaimAction::Finish(Ok(LockClaim::Granted(ex.id))))
                } else {
                    (Some(ClaimState::Reaping(ex.holder_name)), ClaimAction::Delete(ex.id))
                }
            },
            _ => {
                proof {
                    assert(false);
                }
                (None, ClaimAction::Create)
            },
        },
        ClaimState::Retrying => match event {
            ClaimEvent::Created(Ok(id)) => (None, ClaimAction::Finish(Ok(LockClaim::Granted(id)))),
            ClaimEvent::Created(Err(LockError::Conflict)) => {
                let v = chars_of("a teammate");
                (None, ClaimAction::Finish(Ok(LockClaim::Held(string_of(&v)))))
            },
            ClaimEvent::Created(Err(LockError::Other(e))) => (None, ClaimAction::Finish(Err(e))),
            _ => {
                proof {
                    assert(false);
                }
                (None, ClaimAction::Create)
            },
        },
        ClaimState::Reaping(n) => (Some(ClaimState::Reclaiming(n)), ClaimAction::Create),
        ClaimState::Reclaiming(n) => match event {
            ClaimEvent::Created(Ok(id)) => (None, ClaimAction::Finish(Ok(LockClaim::Granted(id)))),
            ClaimEvent::Created(Err(LockError::Conflict)) => (None, ClaimAction::Finish(Ok(LockClaim::Held(n)))),
            ClaimEvent::Created(Err(LockError::Other(e))) => (None, ClaimAction::Finish(Err(e))),
            _ => {
                proof {
                    assert(false);
                }
                (None, ClaimAction::Create)
            },
        },
    }
}

/// Whether a refused create means the note is already locked: a 400 whose
/// body carries the server's uniqueness error, and only that.
pub open spec fn is_conflict_spec(status: u16, body: Seq<char>) -> bool {
    status == 400 && contains_sub(body, "validation_not_unique"@)
}

/// Whether a refused create means the note is already locked.
pub fn is_lock_conflict(status: u16, body: &str) -> (b: bool)
    ensures
        b == is_conflict_spec(status, body@),
{
    status == 400 && contains_chars(&chars_of(body), &chars_of("validation_not_unique"))
}

/// Whether a recording into this note is coordinated at all: it belongs to a
/// workspace and the cloud is configured.
pub fn needs_lock(workspace: &str, cloud_configured: bool) -> (b: bool)
    ensures
        b == (workspace@.len() > 0 && cloud_configured),
{
    chars_of(workspace).len() > 0 && cloud_configured
}

/// What the recorder is told of a claim: its outcome, or `Skipped` when a
/// cloud failure ended it, so a flaky network never stops a recording.
pub fn claim_outcome(r: Result<LockClaim, String>) -> (c: LockClaim)
    ensures
        match r {
            Ok(x) => c == x,
            Err(_) => c is Skipped,
        },
{
    match r {
        Ok(x) => x,
        Err(_) => LockClaim::Skipped,
    }
}

} // verus!
