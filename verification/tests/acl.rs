//! Who may do what.

use crdtsync_core::acl::{
    decide_capability, decide_capability_with_authority, effective_roles, evaluate,
    evaluate_with_authority, governs, AclActor, AclDecision, AclEffect, AclGrant, AclRecord,
    AclSubject, AclTuple, Capability,
};
use crdtsync_core::clientid::ClientId;
use crdtsync_core::elementid::ElementId;
use crdtsync_core::path::encode_path;

fn cid(b: u8) -> ClientId {
    ClientId::from_bytes([b; 16])
}

fn path(keys: &[&str]) -> Vec<u8> {
    let keys: Vec<Vec<u8>> = keys.iter().map(|k| k.as_bytes().to_vec()).collect();
    encode_path(&keys)
}

fn tuple(id: u8, subject: AclSubject, grant: AclGrant, effect: AclEffect, at: &[&str]) -> AclTuple {
    AclTuple {
        id: ElementId::from_bytes([id; 16]),
        subject,
        grant,
        effect,
        path: path(at),
        grantor: cid(9),
    }
}

fn cap(c: Capability) -> AclGrant {
    AclGrant::Capability(c)
}

#[test]
fn a_grant_governs_what_is_below_it() {
    let t = vec![tuple(1, AclSubject::Actor(cid(1)), cap(Capability::Read), AclEffect::Allow, &["a"])];
    let actor = AclActor::new(cid(1));
    assert!(governs(&path(&["a"]), &path(&["a", "b"])));
    assert!(!governs(&path(&["a", "b"]), &path(&["a"])));
    assert!(evaluate(&t, &actor, &path(&["a", "b"]), Capability::Read));
    assert!(!evaluate(&t, &actor, &path(&[]), Capability::Read));
    assert!(!evaluate(&t, &AclActor::new(cid(2)), &path(&["a"]), Capability::Read));
    assert_eq!(decide_capability(&[], &actor, &path(&["a"]), Capability::Read), AclDecision::Abstain);
}

#[test]
fn a_deny_overrides_an_allow_in_any_order() {
    let mut t = vec![
        tuple(1, AclSubject::Anyone, cap(Capability::Write), AclEffect::Allow, &["a"]),
        tuple(2, AclSubject::Actor(cid(1)), cap(Capability::Write), AclEffect::Deny, &[]),
    ];
    let actor = AclActor::new(cid(1));
    assert_eq!(decide_capability(&t, &actor, &path(&["a"]), Capability::Write), AclDecision::Deny);
    t.reverse();
    assert_eq!(decide_capability(&t, &actor, &path(&["a"]), Capability::Write), AclDecision::Deny);
    assert_eq!(
        decide_capability(&t, &AclActor::new(cid(2)), &path(&["a"]), Capability::Write),
        AclDecision::Allow
    );
}

#[test]
fn owning_implies_every_capability_and_denying_it_spares_a_direct_allow() {
    let owns = vec![tuple(1, AclSubject::Authenticated, cap(Capability::Own), AclEffect::Allow, &[])];
    let actor = AclActor::new(cid(1));
    for c in [Capability::Read, Capability::Write, Capability::PublishAwareness, Capability::Own] {
        assert!(evaluate(&owns, &actor, &path(&["x"]), c));
    }
    let mixed = vec![
        tuple(1, AclSubject::Anyone, cap(Capability::Read), AclEffect::Allow, &[]),
        tuple(2, AclSubject::Anyone, cap(Capability::Own), AclEffect::Deny, &[]),
    ];
    assert!(evaluate(&mixed, &actor, &path(&[]), Capability::Read));
    assert!(!evaluate(&mixed, &actor, &path(&[]), Capability::Own));
}

#[test]
fn classes_and_groups_match_their_members() {
    let mut actor = AclActor::new(cid(1));
    assert!(AclSubject::Authenticated.matches(&actor));
    assert!(!AclSubject::Anonymous.matches(&actor));
    assert!(!AclSubject::Group(b"g".to_vec()).matches(&actor));
    actor.groups.push(b"g".to_vec());
    assert!(AclSubject::Group(b"g".to_vec()).matches(&actor));
    actor.authenticated = false;
    assert!(AclSubject::Anonymous.matches(&actor));
    assert!(AclSubject::Anyone.matches(&actor));
}

#[test]
fn a_denied_role_is_absent() {
    let role = |r: &str| AclGrant::Role(r.as_bytes().to_vec());
    let mut t = vec![
        tuple(1, AclSubject::Anyone, role("editor"), AclEffect::Allow, &[]),
        tuple(2, AclSubject::Anyone, role("viewer"), AclEffect::Allow, &[]),
        tuple(3, AclSubject::Anyone, role("editor"), AclEffect::Deny, &["a"]),
    ];
    let actor = AclActor::new(cid(1));
    assert_eq!(effective_roles(&t, &actor, &path(&["a"])), vec![b"viewer".to_vec()]);
    t.reverse();
    assert_eq!(effective_roles(&t, &actor, &path(&["a"])), vec![b"viewer".to_vec()]);
    assert_eq!(effective_roles(&t, &actor, &path(&[])).len(), 2);
}

fn record(t: AclTuple, grantor: u8, revoked_by: &[u8]) -> AclRecord {
    let mut tuple = t;
    tuple.grantor = cid(grantor);
    AclRecord { tuple, revoked_by: revoked_by.iter().map(|b| cid(*b)).collect() }
}

#[test]
fn the_creator_owns_the_root_whatever_others_say() {
    let deny = tuple(1, AclSubject::Anyone, cap(Capability::Own), AclEffect::Deny, &[]);
    let records = vec![record(deny, 2, &[])];
    let creator = AclActor::new(cid(1));
    assert!(evaluate_with_authority(&records, cid(1), &creator, &path(&[]), Capability::Own));
    assert!(evaluate_with_authority(&[], cid(1), &creator, &path(&["x"]), Capability::Write));
    assert_eq!(
        decide_capability_with_authority(&[], cid(1), &AclActor::new(cid(2)), &path(&[]), Capability::Read),
        AclDecision::Abstain
    );
}

#[test]
fn only_a_grant_rooted_in_ownership_confers() {
    let grant = |id| tuple(id, AclSubject::Actor(cid(3)), cap(Capability::Read), AclEffect::Allow, &["a"]);
    let actor = AclActor::new(cid(3));
    let at = path(&["a"]);
    let by_creator = vec![record(grant(1), 1, &[])];
    let by_stranger = vec![record(grant(1), 2, &[])];
    assert!(evaluate_with_authority(&by_creator, cid(1), &actor, &at, Capability::Read));
    assert!(!evaluate_with_authority(&by_stranger, cid(1), &actor, &at, Capability::Read));
    let revoked_by_creator = vec![record(grant(1), 1, &[1])];
    let revoked_by_stranger = vec![record(grant(1), 1, &[2])];
    assert!(!evaluate_with_authority(&revoked_by_creator, cid(1), &actor, &at, Capability::Read));
    assert!(evaluate_with_authority(&revoked_by_stranger, cid(1), &actor, &at, Capability::Read));
    let delegated = |reversed: bool| {
        let own = tuple(2, AclSubject::Actor(cid(2)), cap(Capability::Own), AclEffect::Allow, &["a"]);
        let mut r = vec![record(own, 1, &[]), record(grant(1), 2, &[])];
        if reversed {
            r.reverse();
        }
        r
    };
    for reversed in [false, true] {
        assert!(evaluate_with_authority(&delegated(reversed), cid(1), &actor, &at, Capability::Read));
    }
    let mut denied = delegated(false);
    denied.push(record(
        tuple(5, AclSubject::Actor(cid(3)), cap(Capability::Read), AclEffect::Deny, &["a"]),
        1,
        &[],
    ));
    assert_eq!(
        decide_capability_with_authority(&denied, cid(1), &actor, &at, Capability::Read),
        AclDecision::Deny
    );
}

#[test]
fn the_creator_loses_only_what_the_creator_denies() {
    let own = |id: u8, to: u8| {
        tuple(id, AclSubject::Actor(cid(to)), cap(Capability::Own), AclEffect::Allow, &[])
    };
    let deny = || tuple(3, AclSubject::Actor(cid(1)), cap(Capability::Read), AclEffect::Deny, &[]);
    let creator = AclActor::new(cid(1));
    let decide = |records: &[AclRecord]| {
        decide_capability_with_authority(records, cid(1), &creator, &path(&[]), Capability::Read)
    };
    let by_another =
        vec![record(own(1, 2), 1, &[]), record(own(2, 1), 2, &[]), record(deny(), 2, &[])];
    assert_eq!(decide(&by_another), AclDecision::Allow);
    let by_creator = vec![record(deny(), 1, &[])];
    assert_eq!(decide(&by_creator), AclDecision::Deny);
}
