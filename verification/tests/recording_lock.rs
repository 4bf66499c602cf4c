use humla_core::locks::{
    claim_outcome, claim_start, claim_step, is_lock_conflict, needs_lock, ClaimAction, ClaimEvent, ExistingLock,
    LockClaim, LockError,
};

/// A scripted cloud: what each create answers, and the lock a lookup finds.
struct FakeCloud {
    creates: Vec<Result<String, LockError>>,
    lookup: Option<Result<Option<ExistingLock>, String>>,
    calls: Vec<String>,
}

fn lock(id: &str, holder_id: &str, holder_name: &str) -> ExistingLock {
    ExistingLock { id: id.to_string(), holder_id: holder_id.to_string(), holder_name: holder_name.to_string() }
}

/// Run a claim for user `me` against the scripted cloud.
fn claim(cloud: &mut FakeCloud, me: &str) -> Result<LockClaim, String> {
    let (mut state, mut action) = claim_start();
    loop {
        let event = match action {
            ClaimAction::Finish(r) => return r,
            ClaimAction::Create => {
                cloud.calls.push("create".to_string());
                ClaimEvent::Created(cloud.creates.remove(0))
            }
            ClaimAction::Lookup => {
                cloud.calls.push("lookup".to_string());
                ClaimEvent::Found(cloud.lookup.take().expect("one lookup"))
            }
            ClaimAction::Delete(id) => {
                cloud.calls.push(format!("delete {id}"));
                ClaimEvent::Deleted
            }
        };
        let (next, a) = claim_step(state, event, me);
        action = a;
        state = match next {
            Some(s) => s,
            None => match action {
                ClaimAction::Finish(r) => return r,
                _ => panic!("a finished claim must say how it ended"),
            },
        };
    }
}

fn granted(r: &Result<LockClaim, String>) -> Option<&str> {
    match r {
        Ok(LockClaim::Granted(id)) => Some(id.as_str()),
        _ => None,
    }
}

fn held(r: &Result<LockClaim, String>) -> Option<&str> {
    match r {
        Ok(LockClaim::Held(n)) => Some(n.as_str()),
        _ => None,
    }
}

#[test]
fn a_free_note_is_granted_on_the_first_create() {
    let mut cloud = FakeCloud { creates: vec![Ok("lock1".into())], lookup: None, calls: Vec::new() };
    let r = claim(&mut cloud, "me");
    assert_eq!(granted(&r), Some("lock1"));
    assert_eq!(cloud.calls, vec!["create"]);
}

#[test]
fn our_own_leftover_lock_is_reused() {
    let mut cloud = FakeCloud {
        creates: vec![Err(LockError::Conflict)],
        lookup: Some(Ok(Some(lock("old", "me", "Me")))),
        calls: Vec::new(),
    };
    let r = claim(&mut cloud, "me");
    assert_eq!(granted(&r), Some("old"));
    assert_eq!(cloud.calls, vec!["create", "lookup"]);
}

#[test]
fn a_live_lock_of_a_teammate_reports_its_holder() {
    let mut cloud = FakeCloud {
        creates: vec![Err(LockError::Conflict), Err(LockError::Conflict)],
        lookup: Some(Ok(Some(lock("theirs", "u2", "Hege")))),
        calls: Vec::new(),
    };
    let r = claim(&mut cloud, "me");
    assert_eq!(held(&r), Some("Hege"));
    assert_eq!(cloud.calls, vec!["create", "lookup", "delete theirs", "create"]);
}

#[test]
fn a_stale_lock_is_reaped_and_the_note_claimed() {
    let mut cloud = FakeCloud {
        creates: vec![Err(LockError::Conflict), Ok("fresh".into())],
        lookup: Some(Ok(Some(lock("stale", "u2", "Hege")))),
        calls: Vec::new(),
    };
    assert_eq!(granted(&claim(&mut cloud, "me")), Some("fresh"));
}

#[test]
fn a_lock_that_vanished_gets_one_clean_retry() {
    let mut cloud = FakeCloud {
        creates: vec![Err(LockError::Conflict), Err(LockError::Conflict)],
        lookup: Some(Ok(None)),
        calls: Vec::new(),
    };
    assert_eq!(held(&claim(&mut cloud, "me")), Some("a teammate"));
    assert_eq!(cloud.calls, vec!["create", "lookup", "create"]);
}

#[test]
fn cloud_failures_end_the_claim_as_skipped() {
    let mut cloud = FakeCloud { creates: vec![Err(LockError::Other("503".into()))], lookup: None, calls: Vec::new() };
    let r = claim(&mut cloud, "me");
    assert!(matches!(&r, Err(e) if e == "503"));
    assert!(matches!(claim_outcome(r), LockClaim::Skipped));

    let mut cloud = FakeCloud {
        creates: vec![Err(LockError::Conflict)],
        lookup: Some(Err("lookup failed".into())),
        calls: Vec::new(),
    };
    assert!(matches!(claim_outcome(claim(&mut cloud, "me")), LockClaim::Skipped));
}

#[test]
fn only_the_uniqueness_error_is_a_conflict() {
    assert!(is_lock_conflict(400, r#"{"data":{"note":{"code":"validation_not_unique"}}}"#));
    assert!(!is_lock_conflict(400, r#"{"message":"Failed to create record."}"#));
    assert!(!is_lock_conflict(403, "validation_not_unique"));
}

#[test]
fn personal_notes_and_offline_installs_need_no_lock() {
    assert!(needs_lock("ws1", true));
    assert!(!needs_lock("", true));
    assert!(!needs_lock("ws1", false));
}
