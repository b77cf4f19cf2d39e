//! The authority layer of the ACL: who a grant, a revoke or a deny may speak for.
//!
//! Ownership is rooted at the document's creator. A grant roots when its grantor
//! validly owned the grant's path; a revoke counts when its author is the grantor, the
//! creator or a valid owner; the two are solved together. A deny binds a grant only
//! when its author is at or above the grant's grantor, so it is no back door around
//! revocation.

use crate::acl::{
    applies, governs, records_view, AclActor, AclActorV, AclDecision, AclEffect, AclGrant,
    AclGrantV, AclRecord, AclRecordV, AclSubject, AclSubjectV, Capability,
};
use crate::bytes::is_prefix;
use crate::clientid::ClientId;
use vstd::prelude::*;

verus! {

/// Which records are rooted and which effectively revoked.
pub struct Standing {
    pub rooted: Seq<bool>,
    pub revoked: Seq<bool>,
}

/// Whether the record allows `who`, by actor id, to own.
pub open spec fn owner_grant(r: AclRecordV, who: ClientId) -> bool {
    r.tuple.subject == AclSubjectV::Actor(who) && r.tuple.grant == AclGrantV::Capability(
        Capability::Own,
    ) && r.tuple.effect == AclEffect::Allow
}

/// Whether `actor` owns `target`: it is the creator, or a rooted, unrevoked ownership
/// grant to it governs the path.
pub open spec fn owns(
    records: Seq<AclRecordV>,
    creator: ClientId,
    actor: ClientId,
    target: Seq<u8>,
    st: Standing,
) -> bool {
    actor == creator || exists|i: int|
        0 <= i < records.len() && owner_grant(#[trigger] records[i], actor) && is_prefix(
            records[i].tuple.path,
            target,
        ) && st.rooted[i] && !st.revoked[i]
}

/// A grant roots iff its grantor owns the grant's path.
pub open spec fn roots(
    records: Seq<AclRecordV>,
    creator: ClientId,
    r: AclRecordV,
    st: Standing,
) -> bool {
    owns(records, creator, r.tuple.grantor, r.tuple.path, st)
}

/// A record is revoked iff one of its revokers is the creator, the grantor or an owner
/// of its path.
pub open spec fn revokes(
    records: Seq<AclRecordV>,
    creator: ClientId,
    r: AclRecordV,
    st: Standing,
) -> bool {
    exists|j: int|
        0 <= j < r.revoked_by.len() && may_revoke(records, creator, r, #[trigger] r.revoked_by[j], st)
}

/// Whether `who` has the authority to revoke `r`.
pub open spec fn may_revoke(
    records: Seq<AclRecordV>,
    creator: ClientId,
    r: AclRecordV,
    who: ClientId,
    st: Standing,
) -> bool {
    who == creator || who == r.tuple.grantor || owns(records, creator, who, r.tuple.path, st)
}

/// Every record's rooting, read off a standing.
pub open spec fn rooted_next(records: Seq<AclRecordV>, creator: ClientId, st: Standing) -> Seq<bool> {
    Seq::new(records.len(), |i: int| roots(records, creator, records[i], st))
}

/// Every record's revocation, read off a standing.
pub open spec fn revoked_next(
    records: Seq<AclRecordV>,
    creator: ClientId,
    st: Standing,
) -> Seq<bool> {
    Seq::new(records.len(), |i: int| revokes(records, creator, records[i], st))
}

/// One pass over both relations, each read off the same snapshot.
pub open spec fn pass(records: Seq<AclRecordV>, creator: ClientId, st: Standing) -> Standing {
    Standing {
        rooted: rooted_next(records, creator, st),
        revoked: revoked_next(records, creator, st),
    }
}

/// Passes repeated until one changes nothing, at most `fuel` of them; and whether one
/// did.
pub open spec fn settle(
    records: Seq<AclRecordV>,
    creator: ClientId,
    st: Standing,
    fuel: nat,
) -> (Standing, bool)
    decreases fuel,
{
    if fuel == 0 {
        (st, false)
    } else if pass(records, creator, st) == st {
        (st, true)
    } else {
        settle(records, creator, pass(records, creator, st), (fuel - 1) as nat)
    }
}

/// Rooting passes alone, the revocations pinned.
pub open spec fn settle_roots(
    records: Seq<AclRecordV>,
    creator: ClientId,
    st: Standing,
    fuel: nat,
) -> Standing
    decreases fuel,
{
    if fuel == 0 || rooted_next(records, creator, st) == st.rooted {
        st
    } else {
        settle_roots(
            records,
            creator,
            Standing { rooted: rooted_next(records, creator, st), revoked: st.revoked },
            (fuel - 1) as nat,
        )
    }
}

/// A standing with every revocation still in flux disregarded.
pub open spec fn without_flux(
    records: Seq<AclRecordV>,
    creator: ClientId,
    st: Standing,
) -> Standing {
    Standing {
        rooted: st.rooted,
        revoked: Seq::new(
            records.len(),
            |i: int| st.revoked[i] && revoked_next(records, creator, st)[i],
        ),
    }
}

/// Nothing rooted, nothing revoked.
pub open spec fn blank(n: nat) -> Standing {
    Standing { rooted: Seq::new(n, |i: int| false), revoked: Seq::new(n, |i: int| false) }
}

/// The standing every verdict is read off: the relation iterated from nothing; where it
/// oscillates, the revocations in flux are disregarded and rooting settled without them.
pub open spec fn standing(records: Seq<AclRecordV>, creator: ClientId) -> Standing {
    let n = records.len();
    let (st, converged) = settle(records, creator, blank(n), 2 * n + 2);
    if converged {
        st
    } else {
        settle_roots(records, creator, without_flux(records, creator, st), n + 1)
    }
}

/// Whether `up` made a rooted, unrevoked ownership grant to `who`.
pub open spec fn delegated(
    records: Seq<AclRecordV>,
    st: Standing,
    who: ClientId,
    up: ClientId,
) -> bool {
    exists|i: int|
        0 <= i < records.len() && owner_grant(#[trigger] records[i], who) && st.rooted[i]
            && !st.revoked[i] && records[i].tuple.grantor == up
}

/// Whether `chain` leads up from `from`, each actor's ownership delegated by the next.
pub open spec fn delegation_chain(
    records: Seq<AclRecordV>,
    st: Standing,
    from: ClientId,
    chain: Seq<ClientId>,
) -> bool {
    chain.len() > 0 && chain[0] == from && forall|k: int|
        0 <= k < chain.len() - 1 ==> delegated(records, st, #[trigger] chain[k], chain[k + 1])
}

/// Whether `author` is at or above `grantor`: the creator, the grantor itself, or an
/// actor the grantor's ownership derives from.
pub open spec fn above(
    records: Seq<AclRecordV>,
    creator: ClientId,
    author: ClientId,
    grantor: ClientId,
    st: Standing,
) -> bool {
    author == creator || exists|chain: Seq<ClientId>| #[trigger]
        delegation_chain(records, st, grantor, chain) && chain.last() == author
}

/// Whether the record is a live deny of `actor` at `path` that touches the request: of
/// the capability itself, or of ownership where the allow came through ownership.
pub open spec fn denies(
    r: AclRecordV,
    revoked: bool,
    actor: AclActorV,
    path: Seq<u8>,
    capability: Capability,
    via_own: bool,
) -> bool {
    !revoked && r.tuple.effect == AclEffect::Deny && applies(r.tuple, actor, path) && (
    r.tuple.grant == AclGrantV::Capability(capability) || (via_own && r.tuple.grant
        == AclGrantV::Capability(Capability::Own)))
}

/// Whether a deny with the authority to bind `granter` suppresses its allow.
pub open spec fn suppressed(
    records: Seq<AclRecordV>,
    creator: ClientId,
    actor: AclActorV,
    path: Seq<u8>,
    capability: Capability,
    granter: ClientId,
    via_own: bool,
    st: Standing,
) -> bool {
    exists|i: int|
        0 <= i < records.len() && denies(
            #[trigger] records[i],
            st.revoked[i],
            actor,
            path,
            capability,
            via_own,
        ) && above(records, creator, records[i].tuple.grantor, granter, st)
}

/// Whether the creator's ownership of the root is suppressed: only a deny of the
/// creator's own does that.
pub open spec fn self_denied(
    records: Seq<AclRecordV>,
    creator: ClientId,
    actor: AclActorV,
    path: Seq<u8>,
    capability: Capability,
    st: Standing,
) -> bool {
    exists|i: int|
        0 <= i < records.len() && denies(
            #[trigger] records[i],
            st.revoked[i],
            actor,
            path,
            capability,
            true,
        ) && records[i].tuple.grantor == creator
}

/// Whether the record is a rooted, live allow that confers the capability on `actor` at
/// `path`, directly or through ownership.
pub open spec fn confers(
    r: AclRecordV,
    rooted: bool,
    revoked: bool,
    actor: AclActorV,
    path: Seq<u8>,
    capability: Capability,
) -> bool {
    rooted && !revoked && r.tuple.effect == AclEffect::Allow && applies(r.tuple, actor, path) && (
    r.tuple.grant == AclGrantV::Capability(capability) || r.tuple.grant == AclGrantV::Capability(
        Capability::Own,
    ))
}

/// Whether the request is allowed: by the creator's ownership of the root, unless the
/// creator denied it, or by a record that confers it and that no authorized deny
/// suppresses.
pub open spec fn allowed(
    records: Seq<AclRecordV>,
    creator: ClientId,
    actor: AclActorV,
    path: Seq<u8>,
    capability: Capability,
    st: Standing,
) -> bool {
    (actor.id == creator && !self_denied(records, creator, actor, path, capability, st))
        || exists|i: int|
        0 <= i < records.len() && confers(
            #[trigger] records[i],
            st.rooted[i],
            st.revoked[i],
            actor,
            path,
            capability,
        ) && !suppressed(
            records,
            creator,
            actor,
            path,
            capability,
            records[i].tuple.grantor,
            records[i].tuple.grant == AclGrantV::Capability(Capability::Own),
            st,
        )
}

/// Whether a live deny of the capability governs the request, whoever made it.
pub open spec fn floored(
    records: Seq<AclRecordV>,
    actor: AclActorV,
    path: Seq<u8>,
    capability: Capability,
    st: Standing,
) -> bool {
    exists|i: int|
        0 <= i < records.len() && denies(
            #[trigger] records[i],
            st.revoked[i],
            actor,
            path,
            capability,
            false,
        )
}

/// The authority-aware verdict.
pub open spec fn authority_decision(
    records: Seq<AclRecordV>,
    creator: ClientId,
    actor: AclActorV,
    path: Seq<u8>,
    capability: Capability,
) -> AclDecision {
    let st = standing(records, creator);
    if allowed(records, creator, actor, path, capability, st) {
        AclDecision::Allow
    } else if floored(records, actor, path, capability, st) {
        AclDecision::Deny
    } else {
        AclDecision::Abstain
    }
}

// --- the evaluator ---

fn is_owner_grant(r: &AclRecord, who: ClientId) -> (b: bool)
    ensures
        b == owner_grant(r@, who),
{
    let subject = match &r.tuple.subject {
        AclSubject::Actor(id) => *id == who,
        _ => false,
    };
    let own = match &r.tuple.grant {
        AclGrant::Capability(c) => *c == Capability::Own,
        _ => false,
    };
    subject && own && r.tuple.effect == AclEffect::Allow
}

/// Whether `actor` owns `target` under a standing. Only actor-id grants count: core
/// does not know an arbitrary actor's groups.
fn owns_path(
    records: &[AclRecord],
    creator: ClientId,
    actor: ClientId,
    target: &[u8],
    rooted: &Vec<bool>,
    revoked: &Vec<bool>,
) -> (b: bool)
    requires
        rooted@.len() == records@.len(),
        revoked@.len() == records@.len(),
    ensures
        b == owns(
            records_view(records@),
            creator,
            actor,
            target@,
            Standing { rooted: rooted@, revoked: revoked@ },
        ),
{
    if actor == creator {
        return true;
    }
    let ghost all = records_view(records@);
    let mut i: usize = 0;
    while i < records.len()
        invariant
            i <= records@.len(),
            all == records_view(records@),
            rooted@.len() == records@.len(),
            revoked@.len() == records@.len(),
            forall|j: int|
                0 <= j < i ==> !(owner_grant(#[trigger] all[j], actor) && is_prefix(
                    all[j].tuple.path,
                    target@,
                ) && rooted@[j] && !revoked@[j]),
        decreases records@.len() - i,
    {
        let r = &records[i];
        proof {
            assert(all[i as int] == r@);
        }
        if is_owner_grant(r, actor) && governs(r.tuple.path.as_slice(), target) && rooted[i]
            && !revoked[i] {
            return true;
        }
        i += 1;
    }
    false
}

/// Each record's rooting under a standing.
fn root_pass(
    records: &[AclRecord],
    creator: ClientId,
    rooted: &Vec<bool>,
    revoked: &Vec<bool>,
) -> (next: Vec<bool>)
    requires
        rooted@.len() == records@.len(),
        revoked@.len() == records@.len(),
    ensures
        next@ == rooted_next(
            records_view(records@),
            creator,
            Standing { rooted: rooted@, revoked: revoked@ },
        ),
{
    let ghost st = Standing { rooted: rooted@, revoked: revoked@ };
    let ghost all = records_view(records@);
    let mut next: Vec<bool> = Vec::new();
    let mut i: usize = 0;
    while i < records.len()
        invariant
            i <= records@.len(),
            all == records_view(records@),
            st == (Standing { rooted: rooted@, revoked: revoked@ }),
            rooted@.len() == records@.len(),
            revoked@.len() == records@.len(),
            next@.len() == i,
            forall|j: int| 0 <= j < i ==> next@[j] == roots(all, creator, all[j], st),
        decreases records@.len() - i,
    {
        let r = &records[i];
        proof {
            assert(all[i as int] == r@);
        }
        next.push(
            owns_path(records, creator, r.tuple.grantor, r.tuple.path.as_slice(), rooted, revoked),
        );
        i += 1;
    }
    proof {
        assert(next@ =~= rooted_next(all, creator, st));
    }
    next
}

/// Whether one of the record's revokers had the authority to revoke it.
fn is_revoked(
    records: &[AclRecord],
    creator: ClientId,
    r: &AclRecord,
    rooted: &Vec<bool>,
    revoked: &Vec<bool>,
) -> (b: bool)
    requires
        rooted@.len() == records@.len(),
        revoked@.len() == records@.len(),
    ensures
        b == revokes(
            records_view(records@),
            creator,
            r@,
            Standing { rooted: rooted@, revoked: revoked@ },
        ),
{
    let ghost st = Standing { rooted: rooted@, revoked: revoked@ };
    let mut j: usize = 0;
    while j < r.revoked_by.len()
        invariant
            j <= r.revoked_by@.len(),
            st == (Standing { rooted: rooted@, revoked: revoked@ }),
            rooted@.len() == records@.len(),
            revoked@.len() == records@.len(),
            forall|k: int|
                0 <= k < j ==> !may_revoke(
                    records_view(records@),
                    creator,
                    r@,
                    #[trigger] r@.revoked_by[k],
                    st,
                ),
        decreases r.revoked_by@.len() - j,
    {
        let who = r.revoked_by[j];
        if who == creator || who == r.tuple.grantor || owns_path(
            records,
            creator,
            who,
            r.tuple.path.as_slice(),
            rooted,
            revoked,
        ) {
            proof {
                assert(may_revoke(
                    records_view(records@),
                    creator,
                    r@,
                    r@.revoked_by[j as int],
                    st,
                ));
            }
            return true;
        }
        j += 1;
    }
    false
}

/// Each record's effective revocation under a standing.
fn revoke_pass(
    records: &[AclRecord],
    creator: ClientId,
    rooted: &Vec<bool>,
    revoked: &Vec<bool>,
) -> (next: Vec<bool>)
    requires
        rooted@.len() == records@.len(),
        revoked@.len() == records@.len(),
    ensures
        next@ == revoked_next(
            records_view(records@),
            creator,
            Standing { rooted: rooted@, revoked: revoked@ },
        ),
{
    let ghost st = Standing { rooted: rooted@, revoked: revoked@ };
    let ghost all = records_view(records@);
    let mut next: Vec<bool> = Vec::new();
    let mut i: usize = 0;
    while i < records.len()
        invariant
            i <= records@.len(),
            all == records_view(records@),
            st == (Standing { rooted: rooted@, revoked: revoked@ }),
            rooted@.len() == records@.len(),
            revoked@.len() == records@.len(),
            next@.len() == i,
            forall|j: int| 0 <= j < i ==> next@[j] == revokes(all, creator, all[j], st),
        decreases records@.len() - i,
    {
        let r = &records[i];
        proof {
            assert(all[i as int] == r@);
        }
        next.push(is_revoked(records, creator, r, rooted, revoked));
        i += 1;
    }
    proof {
        assert(next@ =~= revoked_next(all, creator, st));
    }
    next
}

fn flags_eq(a: &Vec<bool>, b: &Vec<bool>) -> (r: bool)
    ensures
        r == (a@ == b@),
{
    if a.len() != b.len() {
        return false;
    }
    let mut i: usize = 0;
    while i < a.len()
        invariant
            i <= a@.len() == b@.len(),
            forall|j: int| 0 <= j < i ==> a@[j] == b@[j],
        decreases a@.len() - i,
    {
        if a[i] != b[i] {
            return false;
        }
        i += 1;
    }
    proof {
        assert(a@ =~= b@);
    }
    true
}

fn flags_of(n: usize) -> (v: Vec<bool>)
    ensures
        v@ == Seq::new(n as nat, |i: int| false),
{
    let mut v: Vec<bool> = Vec::new();
    let mut i: usize = 0;
    while i < n
        invariant
            i <= n,
            v@.len() == i,
            forall|j: int| 0 <= j < i ==> !v@[j],
        decreases n - i,
    {
        v.push(false);
        i += 1;
    }
    proof {
        assert(v@ =~= Seq::new(n as nat, |i: int| false));
    }
    v
}

/// Solve rooting and revocation together.
fn solve(records: &[AclRecord], creator: ClientId) -> (st: (Vec<bool>, Vec<bool>))
    ensures
        ({
            let s = standing(records_view(records@), creator);
            st.0@ == s.rooted && st.1@ == s.revoked && st.0@.len() == records@.len()
                && st.1@.len() == records@.len()
        }),
{
    let n: usize = records.len();
    let ghost all = records_view(records@);
    let mut rooted: Vec<bool> = flags_of(n);
    let mut revoked: Vec<bool> = flags_of(n);
    let bound: u128 = 2 * n as u128 + 2;
    let mut left: u128 = bound;
    let mut converged: bool = false;
    while left > 0 && !converged
        invariant
            n == records@.len(),
            all == records_view(records@),
            bound == 2 * n + 2,
            left <= bound,
            rooted@.len() == n,
            revoked@.len() == n,
            !converged ==> settle(all, creator, blank(n as nat), bound as nat) == settle(
                all,
                creator,
                Standing { rooted: rooted@, revoked: revoked@ },
                left as nat,
            ),
            converged ==> settle(all, creator, blank(n as nat), bound as nat) == (
                Standing { rooted: rooted@, revoked: revoked@ },
                true,
            ),
        decreases left + (if converged { 0int } else { 1int }),
    {
        let next_rooted = root_pass(records, creator, &rooted, &revoked);
        let next_revoked = revoke_pass(records, creator, &rooted, &revoked);
        if flags_eq(&next_rooted, &rooted) && flags_eq(&next_revoked, &revoked) {
            converged = true;
        } else {
            rooted = next_rooted;
            revoked = next_revoked;
            left = left - 1;
        }
    }
    if !converged {
        let flux = revoke_pass(records, creator, &rooted, &revoked);
        let ghost st = Standing { rooted: rooted@, revoked: revoked@ };
        let mut i: usize = 0;
        while i < n
            invariant
                n == records@.len(),
                i <= n,
                revoked@.len() == n,
                flux@.len() == n,
                st.revoked.len() == n,
                forall|j: int| 0 <= j < i ==> revoked@[j] == (st.revoked[j] && flux@[j]),
                forall|j: int| i <= j < n ==> revoked@[j] == st.revoked[j],
            decreases n - i,
        {
            if flux[i] != revoked[i] {
                revoked[i] = false;
            }
            i += 1;
        }
        let ghost pinned = without_flux(all, creator, st);
        proof {
            assert(revoked@ =~= pinned.revoked);
        }
        let mut rounds: u128 = n as u128 + 1;
        let mut done: bool = false;
        while rounds > 0 && !done
            invariant
                n == records@.len(),
                all == records_view(records@),
                rounds <= n + 1,
                rooted@.len() == n,
                revoked@.len() == n,
                !done ==> settle_roots(all, creator, pinned, (n + 1) as nat) == settle_roots(
                    all,
                    creator,
                    Standing { rooted: rooted@, revoked: revoked@ },
                    rounds as nat,
                ),
                done ==> settle_roots(all, creator, pinned, (n + 1) as nat) == (Standing {
                    rooted: rooted@,
                    revoked: revoked@,
                }),
            decreases rounds + (if done { 0int } else { 1int }),
        {
            let next_rooted = root_pass(records, creator, &rooted, &revoked);
            if flags_eq(&next_rooted, &rooted) {
                done = true;
            } else {
                rooted = next_rooted;
                rounds = rounds - 1;
            }
        }
    }
    (rooted, revoked)
}

fn holds_client(list: &Vec<ClientId>, who: ClientId) -> (b: bool)
    ensures
        b == list@.contains(who),
{
    let mut i: usize = 0;
    while i < list.len()
        invariant
            i <= list@.len(),
            forall|j: int| 0 <= j < i ==> list@[j] != who,
        decreases list@.len() - i,
    {
        if list[i] == who {
            return true;
        }
        i += 1;
    }
    false
}

/// The actors that authored the records.
spec fn grantors(records: Seq<AclRecordV>) -> Seq<ClientId> {
    records.map_values(|r: AclRecordV| r.tuple.grantor)
}

/// Distinct actors found by walking up grantors are at most one more than the records.
proof fn lemma_walk_is_bounded(records: Seq<AclRecordV>, from: ClientId, seen: Seq<ClientId>)
    requires
        seen.no_duplicates(),
        forall|k: int|
            0 <= k < seen.len() ==> (#[trigger] seen[k]) == from || grantors(records).contains(
                seen[k],
            ),
    ensures
        seen.len() <= records.len() + 1,
{
    let g = grantors(records);
    seen.unique_seq_to_set();
    vstd::seq_lib::seq_to_set_is_finite(g);
    g.lemma_cardinality_of_set();
    let all = g.to_set().insert(from);
    assert(seen.to_set().subset_of(all)) by {
        assert forall|x: ClientId| seen.to_set().contains(x) implies all.contains(x) by {
            let k = seen.index_of(x);
            assert(seen[k] == x);
        }
    }
    vstd::set_lib::lemma_len_subset(seen.to_set(), all);
}

/// A chain extended by one delegation is a chain.
proof fn lemma_chain_extend(
    records: Seq<AclRecordV>,
    st: Standing,
    from: ClientId,
    chain: Seq<ClientId>,
    up: ClientId,
)
    requires
        delegation_chain(records, st, from, chain),
        delegated(records, st, chain.last(), up),
    ensures
        delegation_chain(records, st, from, chain.push(up)),
        chain.push(up).last() == up,
{
    let c = chain.push(up);
    assert forall|k: int| 0 <= k < c.len() - 1 implies delegated(
        records,
        st,
        #[trigger] c[k],
        c[k + 1],
    ) by {
        if k < chain.len() - 1 {
            assert(c[k] == chain[k] && c[k + 1] == chain[k + 1]);
        } else {
            assert(c[k] == chain.last() && c[k + 1] == up);
        }
    }
}

/// A set of actors that holds `from` and every delegator of its members holds the end
/// of every chain from `from`.
proof fn lemma_closed_holds_chain(
    records: Seq<AclRecordV>,
    st: Standing,
    from: ClientId,
    chain: Seq<ClientId>,
    seen: Seq<ClientId>,
)
    requires
        delegation_chain(records, st, from, chain),
        seen.contains(from),
        forall|w: ClientId, up: ClientId|
            seen.contains(w) && #[trigger] delegated(records, st, w, up) ==> seen.contains(up),
    ensures
        seen.contains(chain.last()),
    decreases chain.len(),
{
    if chain.len() > 1 {
        let p = chain.drop_last();
        assert forall|k: int| 0 <= k < p.len() - 1 implies delegated(
            records,
            st,
            #[trigger] p[k],
            p[k + 1],
        ) by {
            assert(p[k] == chain[k] && p[k + 1] == chain[k + 1]);
        }
        assert(delegation_chain(records, st, from, p));
        lemma_closed_holds_chain(records, st, from, p, seen);
        assert(delegated(records, st, chain[chain.len() - 2], chain[chain.len() - 2 + 1]));
    }
}

/// Whether `author` is at or above `grantor`: walk up the actors `grantor`'s ownership
/// was delegated by, then their delegators, and so on.
fn at_or_above(
    records: &[AclRecord],
    creator: ClientId,
    author: ClientId,
    grantor: ClientId,
    rooted: &Vec<bool>,
    revoked: &Vec<bool>,
) -> (b: bool)
    requires
        rooted@.len() == records@.len(),
        revoked@.len() == records@.len(),
    ensures
        b == above(
            records_view(records@),
            creator,
            author,
            grantor,
            Standing { rooted: rooted@, revoked: revoked@ },
        ),
{
    let ghost all = records_view(records@);
    let ghost st = Standing { rooted: rooted@, revoked: revoked@ };
    if author == creator {
        return true;
    }
    proof {
        assert(delegation_chain(all, st, grantor, seq![grantor]));
        assert(seq![grantor].last() == grantor);
    }
    if author == grantor {
        return true;
    }
    let mut seen: Vec<ClientId> = Vec::new();
    seen.push(grantor);
    let mut next: usize = 0;
    while next < seen.len()
        invariant
            all == records_view(records@),
            st == (Standing { rooted: rooted@, revoked: revoked@ }),
            rooted@.len() == records@.len(),
            revoked@.len() == records@.len(),
            author != creator,
            author != grantor,
            next <= seen@.len(),
            seen@.len() > 0,
            seen@[0] == grantor,
            seen@.no_duplicates(),
            !seen@.contains(author),
            forall|k: int|
                0 <= k < seen@.len() ==> (#[trigger] seen@[k]) == grantor || grantors(
                    all,
                ).contains(seen@[k]),
            forall|k: int|
                0 <= k < seen@.len() ==> exists|c: Seq<ClientId>| #[trigger]
                    delegation_chain(all, st, grantor, c) && c.last() == #[trigger] seen@[k],
            forall|k: int, up: ClientId|
                0 <= k < next && #[trigger] delegated(all, st, #[trigger] seen@[k], up)
                    ==> seen@.contains(up),
        decreases records@.len() + 1 - next,
    {
        proof {
            lemma_walk_is_bounded(all, grantor, seen@);
        }
        let who = seen[next];
        let ghost started = seen@;
        let mut i: usize = 0;
        while i < records.len()
            invariant
                all == records_view(records@),
                st == (Standing { rooted: rooted@, revoked: revoked@ }),
                rooted@.len() == records@.len(),
                revoked@.len() == records@.len(),
                author != creator,
                author != grantor,
                i <= records@.len(),
                started.len() <= seen@.len(),
                next < started.len(),
                forall|k: int| 0 <= k < started.len() ==> seen@[k] == started[k],
                seen@[next as int] == who,
                seen@[0] == grantor,
                seen@.no_duplicates(),
                !seen@.contains(author),
                forall|k: int|
                    0 <= k < seen@.len() ==> (#[trigger] seen@[k]) == grantor || grantors(
                        all,
                    ).contains(seen@[k]),
                forall|k: int|
                    0 <= k < seen@.len() ==> exists|c: Seq<ClientId>| #[trigger]
                        delegation_chain(all, st, grantor, c) && c.last() == #[trigger] seen@[k],
                forall|j: int|
                    0 <= j < i && owner_grant(#[trigger] all[j], who) && st.rooted[j]
                        && !st.revoked[j] ==> seen@.contains(all[j].tuple.grantor),
            decreases records@.len() - i,
        {
            let r = &records[i];
            proof {
                assert(all[i as int] == r@);
            }
            if rooted[i] && !revoked[i] && is_owner_grant(r, who) {
                let up = r.tuple.grantor;
                let ghost c = choose|c: Seq<ClientId>| #[trigger]
                    delegation_chain(all, st, grantor, c) && c.last() == seen@[next as int];
                proof {
                    assert(delegated(all, st, who, up));
                    lemma_chain_extend(all, st, grantor, c, up);
                }
                if up == author {
                    return true;
                }
                if !holds_client(&seen, up) {
                    let ghost before = seen@;
                    seen.push(up);
                    proof {
                        assert(grantors(all)[i as int] == up);
                        assert(delegation_chain(all, st, grantor, c.push(up)));
                        assert(seen@[before.len() as int] == up);
                        assert forall|x: ClientId| before.contains(x) implies seen@.contains(x) by {
                            let k = before.index_of(x);
                            assert(seen@[k] == x);
                        }
                        assert(!seen@.contains(author)) by {
                            if seen@.contains(author) {
                                let k = seen@.index_of(author);
                                if k < before.len() {
                                    assert(before[k] == author);
                                }
                            }
                        }
                    }
                }
            }
            i += 1;
        }
        proof {
            assert forall|k: int, up: ClientId|
                0 <= k < next + 1 && #[trigger] delegated(
                    all,
                    st,
                    #[trigger] seen@[k],
                    up,
                ) implies seen@.contains(up) by {
                if k < next {
                    assert(started[k] == seen@[k]);
                    assert(started.contains(up));
                    let x = started.index_of(up);
                    assert(seen@[x] == up);
                } else {
                    let j = choose|j: int|
                        0 <= j < all.len() && owner_grant(#[trigger] all[j], who) && st.rooted[j]
                            && !st.revoked[j] && all[j].tuple.grantor == up;
                    assert(seen@.contains(all[j].tuple.grantor));
                }
            }
        }
        next += 1;
    }
    proof {
        if above(all, creator, author, grantor, st) {
            let chain = choose|chain: Seq<ClientId>| #[trigger]
                delegation_chain(all, st, grantor, chain) && chain.last() == author;
            assert forall|w: ClientId, up: ClientId|
                seen@.contains(w) && #[trigger] delegated(
                    all,
                    st,
                    w,
                    up,
                ) implies seen@.contains(up) by {
                let k = seen@.index_of(w);
                assert(delegated(all, st, seen@[k], up));
            }
            assert(seen@.contains(grantor));
            lemma_closed_holds_chain(all, st, grantor, chain, seen@);
        }
    }
    false
}

/// Whether an authorized deny suppresses `granter`'s allow of the request.
fn deny_suppresses(
    records: &[AclRecord],
    creator: ClientId,
    actor: &AclActor,
    path: &[u8],
    capability: Capability,
    granter: ClientId,
    via_own: bool,
    rooted: &Vec<bool>,
    revoked: &Vec<bool>,
) -> (b: bool)
    requires
        rooted@.len() == records@.len(),
        revoked@.len() == records@.len(),
    ensures
        b == suppressed(
            records_view(records@),
            creator,
            actor@,
            path@,
            capability,
            granter,
            via_own,
            Standing { rooted: rooted@, revoked: revoked@ },
        ),
{
    let ghost all = records_view(records@);
    let ghost st = Standing { rooted: rooted@, revoked: revoked@ };
    let mut i: usize = 0;
    while i < records.len()
        invariant
            i <= records@.len(),
            all == records_view(records@),
            st == (Standing { rooted: rooted@, revoked: revoked@ }),
            rooted@.len() == records@.len(),
            revoked@.len() == records@.len(),
            forall|j: int|
                0 <= j < i ==> !(denies(
                    #[trigger] all[j],
                    st.revoked[j],
                    actor@,
                    path@,
                    capability,
                    via_own,
                ) && above(all, creator, all[j].tuple.grantor, granter, st)),
        decreases records@.len() - i,
    {
        let r = &records[i];
        proof {
            assert(all[i as int] == r@);
        }
        if record_denies(r, revoked[i], actor, path, capability, via_own) && at_or_above(
            records,
            creator,
            r.tuple.grantor,
            granter,
            rooted,
            revoked,
        ) {
            return true;
        }
        i += 1;
    }
    false
}

/// Whether the creator denied itself the request.
fn creator_denied(
    records: &[AclRecord],
    creator: ClientId,
    actor: &AclActor,
    path: &[u8],
    capability: Capability,
    revoked: &Vec<bool>,
) -> (b: bool)
    requires
        revoked@.len() == records@.len(),
    ensures
        forall|rooted: Seq<bool>|
            b == #[trigger] self_denied(
                records_view(records@),
                creator,
                actor@,
                path@,
                capability,
                Standing { rooted, revoked: revoked@ },
            ),
{
    let ghost all = records_view(records@);
    let mut i: usize = 0;
    while i < records.len()
        invariant
            i <= records@.len(),
            all == records_view(records@),
            revoked@.len() == records@.len(),
            forall|j: int|
                0 <= j < i ==> !(denies(
                    #[trigger] all[j],
                    revoked@[j],
                    actor@,
                    path@,
                    capability,
                    true,
                ) && all[j].tuple.grantor == creator),
        decreases records@.len() - i,
    {
        let r = &records[i];
        proof {
            assert(all[i as int] == r@);
        }
        if record_denies(r, revoked[i], actor, path, capability, true) && r.tuple.grantor
            == creator {
            return true;
        }
        i += 1;
    }
    false
}

fn record_denies(
    r: &AclRecord,
    revoked: bool,
    actor: &AclActor,
    path: &[u8],
    capability: Capability,
    via_own: bool,
) -> (b: bool)
    ensures
        b == denies(r@, revoked, actor@, path@, capability, via_own),
{
    if revoked || r.tuple.effect != AclEffect::Deny || !r.tuple.subject.matches(actor) || !governs(
        r.tuple.path.as_slice(),
        path,
    ) {
        return false;
    }
    match &r.tuple.grant {
        AclGrant::Capability(c) => *c == capability || (via_own && *c == Capability::Own),
        AclGrant::Role(_) => false,
    }
}

/// The tuple tier's verdict on whether `actor` holds `capability` at `path`, over the
/// merged record set, with the authority rules applied.
pub fn decide_capability_with_authority(
    records: &[AclRecord],
    creator: ClientId,
    actor: &AclActor,
    path: &[u8],
    capability: Capability,
) -> (d: AclDecision)
    ensures
        d == authority_decision(records_view(records@), creator, actor@, path@, capability),
{
    let ghost all = records_view(records@);
    let (rooted, revoked) = solve(records, creator);
    let ghost st = Standing { rooted: rooted@, revoked: revoked@ };
    proof {
        assert(st == standing(all, creator));
    }
    if actor.id == creator && !creator_denied(records, creator, actor, path, capability, &revoked) {
        return AclDecision::Allow;
    }
    let mut i: usize = 0;
    let mut floor: bool = false;
    while i < records.len()
        invariant
            i <= records@.len(),
            all == records_view(records@),
            st == (Standing { rooted: rooted@, revoked: revoked@ }),
            st == standing(all, creator),
            rooted@.len() == records@.len(),
            revoked@.len() == records@.len(),
            !(actor@.id == creator && !self_denied(all, creator, actor@, path@, capability, st)),
            forall|j: int|
                0 <= j < i ==> !(confers(
                    #[trigger] all[j],
                    st.rooted[j],
                    st.revoked[j],
                    actor@,
                    path@,
                    capability,
                ) && !suppressed(
                    all,
                    creator,
                    actor@,
                    path@,
                    capability,
                    all[j].tuple.grantor,
                    all[j].tuple.grant == AclGrantV::Capability(Capability::Own),
                    st,
                )),
            floor == exists|j: int|
                0 <= j < i && denies(
                    #[trigger] all[j],
                    st.revoked[j],
                    actor@,
                    path@,
                    capability,
                    false,
                ),
        decreases records@.len() - i,
    {
        let r = &records[i];
        proof {
            assert(all[i as int] == r@);
        }
        if rooted[i] && !revoked[i] && r.tuple.effect == AclEffect::Allow && r.tuple.subject.matches(
            actor,
        ) && governs(r.tuple.path.as_slice(), path) {
            if let AclGrant::Capability(c) = r.tuple.grant {
                let via_own = c == Capability::Own;
                if (via_own || c == capability) && !deny_suppresses(
                    records,
                    creator,
                    actor,
                    path,
                    capability,
                    r.tuple.grantor,
                    via_own,
                    &rooted,
                    &revoked,
                ) {
                    proof {
                        assert(confers(
                            all[i as int],
                            st.rooted[i as int],
                            st.revoked[i as int],
                            actor@,
                            path@,
                            capability,
                        ));
                    }
                    return AclDecision::Allow;
                }
            }
        }
        if record_denies(r, revoked[i], actor, path, capability, false) {
            floor = true;
        }
        i += 1;
    }
    if floor {
        AclDecision::Deny
    } else {
        AclDecision::Abstain
    }
}

/// Whether `actor` holds `capability` at `path`, with the authority rules applied:
/// denied unless allowed.
pub fn evaluate_with_authority(
    records: &[AclRecord],
    creator: ClientId,
    actor: &AclActor,
    path: &[u8],
    capability: Capability,
) -> (b: bool)
    ensures
        b == (authority_decision(records_view(records@), creator, actor@, path@, capability)
            == AclDecision::Allow),
{
    match decide_capability_with_authority(records, creator, actor, path, capability) {
        AclDecision::Allow => true,
        _ => false,
    }
}

} // verus!
