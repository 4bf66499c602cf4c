use humla_core::cloud::derive_role;
use humla_core::roles::{add_member, remove_member, set_member_role, Relations};

fn strings(v: &[&str]) -> Vec<String> {
    v.iter().map(|s| s.to_string()).collect()
}

fn rel(members: &[&str], admins: &[&str], viewers: &[&str]) -> Relations {
    Relations { members: strings(members), admins: strings(admins), viewers: strings(viewers) }
}

#[test]
fn promoting_to_admin_clears_viewer_and_keeps_membership() {
    let r = rel(&["u1", "u2"], &[], &["u2"]);
    let n = set_member_role(&r, "u2", "admin").unwrap();
    assert_eq!(n.admins, strings(&["u2"]));
    assert!(n.viewers.is_empty());
    assert_eq!(n.members, strings(&["u1", "u2"]));
    assert_eq!(derive_role(Some("u1"), &n.admins, &n.viewers, "u2"), "admin");
}

#[test]
fn a_viewer_or_admin_who_was_not_a_member_becomes_one() {
    let r = rel(&["u1"], &[], &[]);
    let n = set_member_role(&r, "u9", "viewer").unwrap();
    assert_eq!(n.viewers, strings(&["u9"]));
    assert_eq!(n.members, strings(&["u1", "u9"]));
    assert_eq!(derive_role(Some("u1"), &n.admins, &n.viewers, "u9"), "viewer");
}

#[test]
fn demoting_to_member_clears_both_roles() {
    let r = rel(&["u1", "u2"], &["u2"], &["u2"]);
    let n = set_member_role(&r, "u2", "member").unwrap();
    assert!(n.admins.is_empty() && n.viewers.is_empty());
    assert_eq!(n.members, strings(&["u1", "u2"]));
    assert_eq!(derive_role(Some("u1"), &n.admins, &n.viewers, "u2"), "member");
}

#[test]
fn setting_a_role_twice_adds_no_duplicate() {
    let r = rel(&["u2"], &["u2"], &[]);
    let n = set_member_role(&r, "u2", "admin").unwrap();
    assert_eq!(n.admins, strings(&["u2"]));
    assert_eq!(n.members, strings(&["u2"]));
}

#[test]
fn an_unknown_role_is_refused() {
    let r = rel(&["u1"], &[], &[]);
    assert_eq!(set_member_role(&r, "u1", "owner").unwrap_err(), "unknown role: owner");
}

#[test]
fn removing_a_member_drops_every_relation() {
    let r = rel(&["u1", "u2", "u3"], &["u2"], &["u2", "u3"]);
    let n = remove_member(&r, "u2");
    assert_eq!(n.members, strings(&["u1", "u3"]));
    assert!(n.admins.is_empty());
    assert_eq!(n.viewers, strings(&["u3"]));
}

#[test]
fn adding_an_existing_member_writes_nothing() {
    assert_eq!(add_member(&strings(&["u1"]), "u2"), Some(strings(&["u1", "u2"])));
    assert_eq!(add_member(&strings(&["u1", "u2"]), "u2"), None);
}
