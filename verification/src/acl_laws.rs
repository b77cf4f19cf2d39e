//! What holds of every ACL verdict.

use crate::acl::{
    applies, decision, holds_role, some_role, some_tuple, AclActorV, AclDecision, AclEffect,
    AclGrantV, AclRecordV, AclSubjectV, AclTupleV, Capability,
};
use crate::authority::{
    above, allowed, authority_decision, blank, confers, delegated, delegation_chain, denies,
    floored, may_revoke, owner_grant, owns, pass, revokes, rooted_next, roots, self_denied, settle,
    settle_roots, standing, suppressed, without_flux, Standing,
};
use crate::bytes::is_prefix;
use crate::clientid::ClientId;
use vstd::prelude::*;

verus! {

// --- the as-present decision ---

/// The verdict depends only on which tuples there are, not on their order or repeats.
pub proof fn law_decision_ignores_order(
    a: Seq<AclTupleV>,
    b: Seq<AclTupleV>,
    actor: AclActorV,
    path: Seq<u8>,
    capability: Capability,
)
    requires
        forall|t: AclTupleV| a.contains(t) <==> b.contains(t),
    ensures
        decision(a, actor, path, capability) == decision(b, actor, path, capability),
{
    assert forall|e: AclEffect, c: Capability|
        some_tuple(a, actor, path, e, c) == some_tuple(b, actor, path, e, c) by {
        lemma_some_tuple_subset(a, b, actor, path, e, c);
        lemma_some_tuple_subset(b, a, actor, path, e, c);
    }
}

proof fn lemma_some_tuple_subset(
    a: Seq<AclTupleV>,
    b: Seq<AclTupleV>,
    actor: AclActorV,
    path: Seq<u8>,
    e: AclEffect,
    c: Capability,
)
    requires
        forall|t: AclTupleV| a.contains(t) ==> b.contains(t),
    ensures
        some_tuple(a, actor, path, e, c) ==> some_tuple(b, actor, path, e, c),
{
    if some_tuple(a, actor, path, e, c) {
    let i = choose|i: int|
        0 <= i < a.len() && applies(#[trigger] a[i], actor, path) && a[i].effect == e && a[i].grant
            == AclGrantV::Capability(c);
    assert(a.contains(a[i]));
    let j = b.index_of(a[i]);
    assert(b[j] == a[i]);
    }
}

/// The roles held depend only on which tuples there are.
pub proof fn law_roles_ignore_order(
    a: Seq<AclTupleV>,
    b: Seq<AclTupleV>,
    actor: AclActorV,
    path: Seq<u8>,
    role: Seq<u8>,
)
    requires
        forall|t: AclTupleV| a.contains(t) <==> b.contains(t),
    ensures
        holds_role(a, actor, path, role) == holds_role(b, actor, path, role),
{
    assert forall|e: AclEffect|
        some_role(a, actor, path, e, role) == some_role(b, actor, path, e, role) by {
        lemma_some_role_subset(a, b, actor, path, e, role);
        lemma_some_role_subset(b, a, actor, path, e, role);
    }
}

proof fn lemma_some_role_subset(
    a: Seq<AclTupleV>,
    b: Seq<AclTupleV>,
    actor: AclActorV,
    path: Seq<u8>,
    e: AclEffect,
    role: Seq<u8>,
)
    requires
        forall|t: AclTupleV| a.contains(t) ==> b.contains(t),
    ensures
        some_role(a, actor, path, e, role) ==> some_role(b, actor, path, e, role),
{
    if some_role(a, actor, path, e, role) {
        let i = choose|i: int|
            0 <= i < a.len() && applies(#[trigger] a[i], actor, path) && a[i].effect == e
                && a[i].grant == AclGrantV::Role(role);
        assert(a.contains(a[i]));
        let j = b.index_of(a[i]);
        assert(b[j] == a[i]);
    }
}

/// A deny of the exact capability, on the path or an ancestor, wins over everything.
pub proof fn law_deny_overrides(
    tuples: Seq<AclTupleV>,
    i: int,
    actor: AclActorV,
    path: Seq<u8>,
    capability: Capability,
)
    requires
        0 <= i < tuples.len(),
        applies(tuples[i], actor, path),
        tuples[i].effect == AclEffect::Deny,
        tuples[i].grant == AclGrantV::Capability(capability),
    ensures
        decision(tuples, actor, path, capability) == AclDecision::Deny,
{
}

/// An owner holds every capability that is not denied it, unless ownership itself is.
pub proof fn law_own_implies_every_capability(
    tuples: Seq<AclTupleV>,
    actor: AclActorV,
    path: Seq<u8>,
    capability: Capability,
)
    requires
        decision(tuples, actor, path, Capability::Own) == AclDecision::Allow,
        !some_tuple(tuples, actor, path, AclEffect::Deny, capability),
    ensures
        decision(tuples, actor, path, capability) == AclDecision::Allow,
{
}

/// A deny of ownership leaves a capability granted on its own standing.
pub proof fn law_deny_own_spares_a_direct_allow(
    tuples: Seq<AclTupleV>,
    actor: AclActorV,
    path: Seq<u8>,
    capability: Capability,
)
    requires
        some_tuple(tuples, actor, path, AclEffect::Allow, capability),
        !some_tuple(tuples, actor, path, AclEffect::Deny, capability),
    ensures
        decision(tuples, actor, path, capability) == AclDecision::Allow,
{
}

/// An empty set grants nothing.
pub proof fn law_no_tuples_abstain(actor: AclActorV, path: Seq<u8>, capability: Capability)
    ensures
        decision(Seq::empty(), actor, path, capability) == AclDecision::Abstain,
{
}

/// What governs a path governs everything under it: a tuple that applies at a path
/// applies at every extension of the path.
pub proof fn law_grants_inherit_downward(
    t: AclTupleV,
    actor: AclActorV,
    path: Seq<u8>,
    below: Seq<u8>,
)
    requires
        applies(t, actor, path),
        is_prefix(path, below),
    ensures
        applies(t, actor, below),
{
    assert(below.take(t.path.len() as int) =~= path.take(t.path.len() as int));
}

/// A denied role is absent even where a token claims it.
pub proof fn law_denied_role_is_absent(
    tuples: Seq<AclTupleV>,
    actor: AclActorV,
    path: Seq<u8>,
    role: Seq<u8>,
)
    requires
        some_role(tuples, actor, path, AclEffect::Deny, role),
    ensures
        !holds_role(tuples, actor, path, role),
{
}

// --- the authority layer ---

/// The creator holds every capability everywhere unless it denied itself the request.
pub proof fn law_creator_owns_the_root(
    records: Seq<AclRecordV>,
    creator: ClientId,
    actor: AclActorV,
    path: Seq<u8>,
    capability: Capability,
)
    requires
        actor.id == creator,
        !self_denied(
            records,
            creator,
            actor,
            path,
            capability,
            standing(records, creator),
        ),
    ensures
        authority_decision(records, creator, actor, path, capability) == AclDecision::Allow,
{
}

/// The creator's ownership of the root is immune to any deny but the creator's own,
/// whatever others granted it.
pub proof fn law_creator_is_immune_to_others(
    records: Seq<AclRecordV>,
    creator: ClientId,
    actor: AclActorV,
    path: Seq<u8>,
    capability: Capability,
)
    requires
        actor.id == creator,
        forall|i: int|
            0 <= i < records.len() && (#[trigger] records[i]).tuple.effect == AclEffect::Deny
                ==> records[i].tuple.grantor != creator,
    ensures
        authority_decision(records, creator, actor, path, capability) == AclDecision::Allow,
{
}

/// With no records, the creator is allowed and everyone else abstains.
pub proof fn law_no_records(
    creator: ClientId,
    actor: AclActorV,
    path: Seq<u8>,
    capability: Capability,
)
    ensures
        authority_decision(Seq::empty(), creator, actor, path, capability) == if actor.id
            == creator {
            AclDecision::Allow
        } else {
            AclDecision::Abstain
        },
{
}

/// An actor that is not the creator is allowed only by a rooted, live allow that
/// confers the capability: an unrooted or revoked grant confers nothing.
pub proof fn law_only_rooted_grants_confer(
    records: Seq<AclRecordV>,
    creator: ClientId,
    actor: AclActorV,
    path: Seq<u8>,
    capability: Capability,
)
    requires
        actor.id != creator,
        authority_decision(records, creator, actor, path, capability) == AclDecision::Allow,
    ensures
        exists|i: int|
            0 <= i < records.len() && confers(
                #[trigger] records[i],
                standing(records, creator).rooted[i],
                standing(records, creator).revoked[i],
                actor,
                path,
                capability,
            ),
{
}

/// A live deny of the capability is never overlooked: the verdict is then no abstention.
pub proof fn law_live_deny_floors(
    records: Seq<AclRecordV>,
    creator: ClientId,
    actor: AclActorV,
    path: Seq<u8>,
    capability: Capability,
)
    requires
        floored(records, actor, path, capability, standing(records, creator)),
    ensures
        authority_decision(records, creator, actor, path, capability) != AclDecision::Abstain,
{
}

// --- order independence of the authority layer ---

/// Whether `b` is `a` reordered by `p`: place `i` of `b` holds what place `p[i]` of `a`
/// does, every place used.
pub open spec fn reordered(a: Seq<AclRecordV>, b: Seq<AclRecordV>, p: Seq<int>) -> bool {
    &&& a.len() == b.len() == p.len()
    &&& forall|i: int| 0 <= i < p.len() ==> 0 <= #[trigger] p[i] < a.len() && b[i] == a[p[i]]
    &&& forall|j: int| 0 <= j < a.len() ==> #[trigger] p.contains(j)
}

/// Whether standing `t` is `s` reordered by `p`.
pub open spec fn standing_reordered(s: Standing, t: Standing, p: Seq<int>) -> bool {
    &&& s.rooted.len() == s.revoked.len() == t.rooted.len() == t.revoked.len() == p.len()
    &&& forall|i: int| 0 <= i < p.len() ==> t.rooted[i] == s.rooted[#[trigger] p[i]]
    &&& forall|i: int| 0 <= i < p.len() ==> t.revoked[i] == s.revoked[#[trigger] p[i]]
}

proof fn lemma_owns_reordered(
    a: Seq<AclRecordV>,
    b: Seq<AclRecordV>,
    p: Seq<int>,
    creator: ClientId,
    who: ClientId,
    target: Seq<u8>,
    s: Standing,
    t: Standing,
)
    requires
        reordered(a, b, p),
        standing_reordered(s, t, p),
    ensures
        owns(a, creator, who, target, s) == owns(b, creator, who, target, t),
{
    if who != creator {
        if owns(a, creator, who, target, s) {
            let j = choose|j: int|
                0 <= j < a.len() && owner_grant(#[trigger] a[j], who) && is_prefix(
                    a[j].tuple.path,
                    target,
                ) && s.rooted[j] && !s.revoked[j];
            assert(p.contains(j));
            let i = p.index_of(j);
            assert(b[i] == a[p[i]]);
        }
        if owns(b, creator, who, target, t) {
            let i = choose|i: int|
                0 <= i < b.len() && owner_grant(#[trigger] b[i], who) && is_prefix(
                    b[i].tuple.path,
                    target,
                ) && t.rooted[i] && !t.revoked[i];
            assert(b[i] == a[p[i]]);
        }
    }
}

proof fn lemma_revokes_reordered(
    a: Seq<AclRecordV>,
    b: Seq<AclRecordV>,
    p: Seq<int>,
    creator: ClientId,
    r: AclRecordV,
    s: Standing,
    t: Standing,
)
    requires
        reordered(a, b, p),
        standing_reordered(s, t, p),
    ensures
        revokes(a, creator, r, s) == revokes(b, creator, r, t),
{
    assert forall|who: ClientId|
        may_revoke(a, creator, r, who, s) == may_revoke(b, creator, r, who, t) by {
        lemma_owns_reordered(a, b, p, creator, who, r.tuple.path, s, t);
    }
    if revokes(a, creator, r, s) {
        let j = choose|j: int|
            0 <= j < r.revoked_by.len() && may_revoke(
                a,
                creator,
                r,
                #[trigger] r.revoked_by[j],
                s,
            );
        assert(may_revoke(b, creator, r, r.revoked_by[j], t));
    }
    if revokes(b, creator, r, t) {
        let j = choose|j: int|
            0 <= j < r.revoked_by.len() && may_revoke(
                b,
                creator,
                r,
                #[trigger] r.revoked_by[j],
                t,
            );
        assert(may_revoke(a, creator, r, r.revoked_by[j], s));
    }
}

proof fn lemma_pass_reordered(
    a: Seq<AclRecordV>,
    b: Seq<AclRecordV>,
    p: Seq<int>,
    creator: ClientId,
    s: Standing,
    t: Standing,
)
    requires
        reordered(a, b, p),
        standing_reordered(s, t, p),
    ensures
        standing_reordered(pass(a, creator, s), pass(b, creator, t), p),
{
    let n = pass(a, creator, s);
    let m = pass(b, creator, t);
    assert forall|i: int| 0 <= i < p.len() implies m.rooted[i] == n.rooted[#[trigger] p[i]] by {
        let r = b[i];
        lemma_owns_reordered(a, b, p, creator, r.tuple.grantor, r.tuple.path, s, t);
    }
    assert forall|i: int| 0 <= i < p.len() implies m.revoked[i] == n.revoked[#[trigger] p[i]] by {
        lemma_revokes_reordered(a, b, p, creator, b[i], s, t);
    }
}

proof fn lemma_flags_reordered(x: Seq<bool>, y: Seq<bool>, u: Seq<bool>, v: Seq<bool>, p: Seq<int>)
    requires
        x.len() == y.len() == u.len() == v.len() == p.len(),
        forall|i: int| 0 <= i < p.len() ==> 0 <= #[trigger] p[i] < p.len(),
        forall|j: int| 0 <= j < p.len() ==> #[trigger] p.contains(j),
        forall|i: int| 0 <= i < p.len() ==> u[i] == x[#[trigger] p[i]],
        forall|i: int| 0 <= i < p.len() ==> v[i] == y[#[trigger] p[i]],
    ensures
        (x == y) == (u == v),
{
    if x == y {
        assert forall|i: int| 0 <= i < p.len() implies u[i] == v[i] by {
            assert(u[i] == x[p[i]] && v[i] == y[p[i]]);
        }
        assert(u =~= v);
    }
    if u == v {
        assert forall|j: int| 0 <= j < p.len() implies x[j] == y[j] by {
            assert(p.contains(j));
            let i = p.index_of(j);
            assert(u[i] == x[p[i]] && v[i] == y[p[i]]);
        }
        assert(x =~= y);
    }
}

proof fn lemma_settle_reordered(
    a: Seq<AclRecordV>,
    b: Seq<AclRecordV>,
    p: Seq<int>,
    creator: ClientId,
    s: Standing,
    t: Standing,
    fuel: nat,
)
    requires
        reordered(a, b, p),
        standing_reordered(s, t, p),
    ensures
        standing_reordered(settle(a, creator, s, fuel).0, settle(b, creator, t, fuel).0, p),
        settle(a, creator, s, fuel).1 == settle(b, creator, t, fuel).1,
    decreases fuel,
{
    if fuel > 0 {
        let n = pass(a, creator, s);
        let m = pass(b, creator, t);
        lemma_pass_reordered(a, b, p, creator, s, t);
        lemma_flags_reordered(n.rooted, s.rooted, m.rooted, t.rooted, p);
        lemma_flags_reordered(n.revoked, s.revoked, m.revoked, t.revoked, p);
        assert((n == s) == (m == t));
        lemma_settle_reordered(a, b, p, creator, n, m, (fuel - 1) as nat);
    }
}

proof fn lemma_settle_roots_reordered(
    a: Seq<AclRecordV>,
    b: Seq<AclRecordV>,
    p: Seq<int>,
    creator: ClientId,
    s: Standing,
    t: Standing,
    fuel: nat,
)
    requires
        reordered(a, b, p),
        standing_reordered(s, t, p),
    ensures
        standing_reordered(
            settle_roots(a, creator, s, fuel),
            settle_roots(b, creator, t, fuel),
            p,
        ),
    decreases fuel,
{
    if fuel > 0 {
        lemma_pass_reordered(a, b, p, creator, s, t);
        let n = Standing { rooted: rooted_next(a, creator, s), revoked: s.revoked };
        let m = Standing { rooted: rooted_next(b, creator, t), revoked: t.revoked };
        assert forall|i: int| 0 <= i < p.len() implies m.rooted[i] == n.rooted[#[trigger] p[i]] by {
            assert(pass(b, creator, t).rooted[i] == pass(a, creator, s).rooted[p[i]]);
        }
        lemma_flags_reordered(n.rooted, s.rooted, m.rooted, t.rooted, p);
        lemma_settle_roots_reordered(a, b, p, creator, n, m, (fuel - 1) as nat);
    }
}

proof fn lemma_standing_reordered(
    a: Seq<AclRecordV>,
    b: Seq<AclRecordV>,
    p: Seq<int>,
    creator: ClientId,
)
    requires
        reordered(a, b, p),
    ensures
        standing_reordered(standing(a, creator), standing(b, creator), p),
{
    let n = a.len();
    lemma_settle_reordered(a, b, p, creator, blank(n), blank(n), 2 * n + 2);
    let s = settle(a, creator, blank(n), 2 * n + 2).0;
    let t = settle(b, creator, blank(n), 2 * n + 2).0;
    lemma_pass_reordered(a, b, p, creator, s, t);
    let x = without_flux(a, creator, s);
    let y = without_flux(b, creator, t);
    assert forall|i: int| 0 <= i < p.len() implies y.revoked[i] == x.revoked[#[trigger] p[i]] by {
        assert(pass(b, creator, t).revoked[i] == pass(a, creator, s).revoked[p[i]]);
    }
    lemma_settle_roots_reordered(a, b, p, creator, x, y, n + 1);
}

proof fn lemma_above_reordered(
    a: Seq<AclRecordV>,
    b: Seq<AclRecordV>,
    p: Seq<int>,
    creator: ClientId,
    author: ClientId,
    grantor: ClientId,
    s: Standing,
    t: Standing,
)
    requires
        reordered(a, b, p),
        standing_reordered(s, t, p),
    ensures
        above(a, creator, author, grantor, s) == above(b, creator, author, grantor, t),
{
    assert forall|w: ClientId, up: ClientId|
        delegated(a, s, w, up) == delegated(b, t, w, up) by {
        if delegated(a, s, w, up) {
            let j = choose|j: int|
                0 <= j < a.len() && owner_grant(#[trigger] a[j], w) && s.rooted[j]
                    && !s.revoked[j] && a[j].tuple.grantor == up;
            assert(p.contains(j));
            let i = p.index_of(j);
            assert(b[i] == a[p[i]]);
        }
        if delegated(b, t, w, up) {
            let i = choose|i: int|
                0 <= i < b.len() && owner_grant(#[trigger] b[i], w) && t.rooted[i]
                    && !t.revoked[i] && b[i].tuple.grantor == up;
            assert(b[i] == a[p[i]]);
        }
    }
    assert forall|c: Seq<ClientId>|
        delegation_chain(a, s, grantor, c) == delegation_chain(b, t, grantor, c) by {
        assert forall|k: int| 0 <= k < c.len() - 1 implies delegated(
            a,
            s,
            #[trigger] c[k],
            c[k + 1],
        ) == delegated(b, t, c[k], c[k + 1]) by {
        }
    }
    if above(a, creator, author, grantor, s) && author != creator {
        let c = choose|c: Seq<ClientId>| #[trigger]
            delegation_chain(a, s, grantor, c) && c.last() == author;
        assert(delegation_chain(b, t, grantor, c));
    }
    if above(b, creator, author, grantor, t) && author != creator {
        let c = choose|c: Seq<ClientId>| #[trigger]
            delegation_chain(b, t, grantor, c) && c.last() == author;
        assert(delegation_chain(a, s, grantor, c));
    }
}

proof fn lemma_self_denied_reordered(
    a: Seq<AclRecordV>,
    b: Seq<AclRecordV>,
    p: Seq<int>,
    creator: ClientId,
    actor: AclActorV,
    path: Seq<u8>,
    capability: Capability,
    s: Standing,
    t: Standing,
)
    requires
        reordered(a, b, p),
        standing_reordered(s, t, p),
    ensures
        self_denied(a, creator, actor, path, capability, s) == self_denied(
            b,
            creator,
            actor,
            path,
            capability,
            t,
        ),
{
    if self_denied(a, creator, actor, path, capability, s) {
        let j = choose|j: int|
            0 <= j < a.len() && denies(
                #[trigger] a[j],
                s.revoked[j],
                actor,
                path,
                capability,
                true,
            ) && a[j].tuple.grantor == creator;
        assert(p.contains(j));
        let i = p.index_of(j);
        assert(b[i] == a[p[i]]);
        assert(denies(b[i], t.revoked[i], actor, path, capability, true));
    }
    if self_denied(b, creator, actor, path, capability, t) {
        let i = choose|i: int|
            0 <= i < b.len() && denies(
                #[trigger] b[i],
                t.revoked[i],
                actor,
                path,
                capability,
                true,
            ) && b[i].tuple.grantor == creator;
        assert(b[i] == a[p[i]]);
        assert(denies(a[p[i]], s.revoked[p[i]], actor, path, capability, true));
    }
}

proof fn lemma_suppressed_reordered(
    a: Seq<AclRecordV>,
    b: Seq<AclRecordV>,
    p: Seq<int>,
    creator: ClientId,
    actor: AclActorV,
    path: Seq<u8>,
    capability: Capability,
    granter: ClientId,
    via_own: bool,
    s: Standing,
    t: Standing,
)
    requires
        reordered(a, b, p),
        standing_reordered(s, t, p),
    ensures
        suppressed(a, creator, actor, path, capability, granter, via_own, s) == suppressed(
            b,
            creator,
            actor,
            path,
            capability,
            granter,
            via_own,
            t,
        ),
{
    if suppressed(a, creator, actor, path, capability, granter, via_own, s) {
        let j = choose|j: int|
            0 <= j < a.len() && denies(
                #[trigger] a[j],
                s.revoked[j],
                actor,
                path,
                capability,
                via_own,
            ) && above(a, creator, a[j].tuple.grantor, granter, s);
        assert(p.contains(j));
        let i = p.index_of(j);
        assert(b[i] == a[p[i]]);
        lemma_above_reordered(a, b, p, creator, a[j].tuple.grantor, granter, s, t);
    }
    if suppressed(b, creator, actor, path, capability, granter, via_own, t) {
        let i = choose|i: int|
            0 <= i < b.len() && denies(
                #[trigger] b[i],
                t.revoked[i],
                actor,
                path,
                capability,
                via_own,
            ) && above(b, creator, b[i].tuple.grantor, granter, t);
        assert(b[i] == a[p[i]]);
        lemma_above_reordered(a, b, p, creator, b[i].tuple.grantor, granter, s, t);
    }
}

/// The authority-aware verdict does not depend on the order of the records: replicas
/// holding the same merged set decide identically.
pub proof fn law_authority_ignores_order(
    a: Seq<AclRecordV>,
    b: Seq<AclRecordV>,
    p: Seq<int>,
    creator: ClientId,
    actor: AclActorV,
    path: Seq<u8>,
    capability: Capability,
)
    requires
        reordered(a, b, p),
    ensures
        authority_decision(a, creator, actor, path, capability) == authority_decision(
            b,
            creator,
            actor,
            path,
            capability,
        ),
{
    let s = standing(a, creator);
    let t = standing(b, creator);
    lemma_standing_reordered(a, b, p, creator);
    lemma_self_denied_reordered(a, b, p, creator, actor, path, capability, s, t);
    if allowed(a, creator, actor, path, capability, s) {
        if !(actor.id == creator && !self_denied(a, creator, actor, path, capability, s)) {
            let j = choose|j: int|
                0 <= j < a.len() && confers(
                    #[trigger] a[j],
                    s.rooted[j],
                    s.revoked[j],
                    actor,
                    path,
                    capability,
                ) && !suppressed(
                    a,
                    creator,
                    actor,
                    path,
                    capability,
                    a[j].tuple.grantor,
                    a[j].tuple.grant == AclGrantV::Capability(Capability::Own),
                    s,
                );
            assert(p.contains(j));
            let i = p.index_of(j);
            assert(b[i] == a[p[i]]);
            lemma_suppressed_reordered(
                a,
                b,
                p,
                creator,
                actor,
                path,
                capability,
                a[j].tuple.grantor,
                a[j].tuple.grant == AclGrantV::Capability(Capability::Own),
                s,
                t,
            );
            assert(confers(b[i], t.rooted[i], t.revoked[i], actor, path, capability));
        }
        assert(allowed(b, creator, actor, path, capability, t));
    }
    if allowed(b, creator, actor, path, capability, t) {
        if !(actor.id == creator && !self_denied(b, creator, actor, path, capability, t)) {
            let i = choose|i: int|
                0 <= i < b.len() && confers(
                    #[trigger] b[i],
                    t.rooted[i],
                    t.revoked[i],
                    actor,
                    path,
                    capability,
                ) && !suppressed(
                    b,
                    creator,
                    actor,
                    path,
                    capability,
                    b[i].tuple.grantor,
                    b[i].tuple.grant == AclGrantV::Capability(Capability::Own),
                    t,
                );
            assert(b[i] == a[p[i]]);
            lemma_suppressed_reordered(
                a,
                b,
                p,
                creator,
                actor,
                path,
                capability,
                b[i].tuple.grantor,
                b[i].tuple.grant == AclGrantV::Capability(Capability::Own),
                s,
                t,
            );
            assert(confers(a[p[i]], s.rooted[p[i]], s.revoked[p[i]], actor, path, capability));
        }
        assert(allowed(a, creator, actor, path, capability, s));
    }
    if floored(a, actor, path, capability, s) {
        let j = choose|j: int|
            0 <= j < a.len() && denies(
                #[trigger] a[j],
                s.revoked[j],
                actor,
                path,
                capability,
                false,
            );
        assert(p.contains(j));
        let i = p.index_of(j);
        assert(b[i] == a[p[i]]);
        assert(floored(b, actor, path, capability, t));
    }
    if floored(b, actor, path, capability, t) {
        let i = choose|i: int|
            0 <= i < b.len() && denies(
                #[trigger] b[i],
                t.revoked[i],
                actor,
                path,
                capability,
                false,
            );
        assert(b[i] == a[p[i]]);
        assert(floored(a, actor, path, capability, s));
    }
}

// --- who a grant reaches ---

/// Whether an actor is one of those a subject names.
pub open spec fn names_actor(subject: AclSubjectV, actor: AclActorV) -> bool {
    match subject {
        AclSubjectV::Actor(id) => actor.id == id,
        AclSubjectV::Group(g) => exists|i: int|
            0 <= i < actor.groups.len() && #[trigger] actor.groups[i] == g,
        AclSubjectV::Authenticated => actor.authenticated,
        AclSubjectV::Anonymous => !actor.authenticated,
        AclSubjectV::Anyone => true,
    }
}

/// Whether a path lies at or below another: it starts with it, byte for byte.
pub open spec fn lies_at_or_below(path: Seq<u8>, scope: Seq<u8>) -> bool {
    scope.len() <= path.len() && forall|i: int| 0 <= i < scope.len() ==> #[trigger] path[i] == scope[i]
}

/// Whether a tuple speaks of an actor at a path.
pub open spec fn reaches(t: AclTupleV, actor: AclActorV, path: Seq<u8>) -> bool {
    names_actor(t.subject, actor) && lies_at_or_below(path, t.path)
}

/// A tuple governs a request just where its subject names the actor and the path lies at
/// or below its own.
pub proof fn law_a_tuple_reaches_whom_it_names(t: AclTupleV, actor: AclActorV, path: Seq<u8>)
    ensures
        applies(t, actor, path) <==> reaches(t, actor, path),
{
    if lies_at_or_below(path, t.path) {
        assert(path.take(t.path.len() as int) =~= t.path);
    }
    if t.path.len() <= path.len() && path.take(t.path.len() as int) == t.path {
        assert forall|i: int| 0 <= i < t.path.len() implies #[trigger] path[i] == t.path[i] by {
            assert(path.take(t.path.len() as int)[i] == path[i]);
        }
    }
    if let AclSubjectV::Group(g) = t.subject {
        if actor.groups.contains(g) {
            assert(actor.groups[actor.groups.index_of(g)] == g);
        }
    }
}

// --- which grants decide ---

/// Whether some tuple that reaches the request has this effect on just this grant.
pub open spec fn any_reaching(
    tuples: Seq<AclTupleV>,
    actor: AclActorV,
    path: Seq<u8>,
    effect: AclEffect,
    grant: AclGrantV,
) -> bool {
    exists|i: int|
        0 <= i < tuples.len() && reaches(#[trigger] tuples[i], actor, path) && tuples[i].effect
            == effect && tuples[i].grant == grant
}

proof fn lemma_any_tuple(
    tuples: Seq<AclTupleV>,
    actor: AclActorV,
    path: Seq<u8>,
    effect: AclEffect,
    capability: Capability,
)
    ensures
        some_tuple(tuples, actor, path, effect, capability) <==> any_reaching(
            tuples,
            actor,
            path,
            effect,
            AclGrantV::Capability(capability),
        ),
{
    if some_tuple(tuples, actor, path, effect, capability) {
        let i = choose|i: int|
            0 <= i < tuples.len() && applies(#[trigger] tuples[i], actor, path) && tuples[i].effect
                == effect && tuples[i].grant == AclGrantV::Capability(capability);
        law_a_tuple_reaches_whom_it_names(tuples[i], actor, path);
        assert(reaches(tuples[i], actor, path));
    }
    if any_reaching(tuples, actor, path, effect, AclGrantV::Capability(capability)) {
        let i = choose|i: int|
            0 <= i < tuples.len() && reaches(#[trigger] tuples[i], actor, path) && tuples[i].effect
                == effect && tuples[i].grant == AclGrantV::Capability(capability);
        law_a_tuple_reaches_whom_it_names(tuples[i], actor, path);
        assert(applies(tuples[i], actor, path));
    }
}

/// A request is denied just where a tuple that reaches it denies exactly what is asked.
pub proof fn law_a_denial_was_granted(
    tuples: Seq<AclTupleV>,
    actor: AclActorV,
    path: Seq<u8>,
    capability: Capability,
)
    ensures
        decision(tuples, actor, path, capability) == AclDecision::Deny <==> any_reaching(
            tuples,
            actor,
            path,
            AclEffect::Deny,
            AclGrantV::Capability(capability),
        ),
{
    lemma_any_tuple(tuples, actor, path, AclEffect::Deny, capability);
}

/// A request is allowed only where a tuple that reaches it allows exactly what is asked, or
/// ownership; and by ownership alone only where no tuple that reaches it denies ownership.
/// Nothing that reaches it denies what is asked.
pub proof fn law_an_allowance_was_granted(
    tuples: Seq<AclTupleV>,
    actor: AclActorV,
    path: Seq<u8>,
    capability: Capability,
)
    requires
        decision(tuples, actor, path, capability) == AclDecision::Allow,
    ensures
        exists|i: int|
            0 <= i < tuples.len() && reaches(#[trigger] tuples[i], actor, path) && tuples[i].effect
                == AclEffect::Allow && (tuples[i].grant == AclGrantV::Capability(capability)
                || tuples[i].grant == AclGrantV::Capability(Capability::Own)),
        any_reaching(
            tuples,
            actor,
            path,
            AclEffect::Allow,
            AclGrantV::Capability(capability),
        ) || !any_reaching(
            tuples,
            actor,
            path,
            AclEffect::Deny,
            AclGrantV::Capability(Capability::Own),
        ),
        forall|i: int|
            0 <= i < tuples.len() && reaches(#[trigger] tuples[i], actor, path) && tuples[i].effect
                == AclEffect::Deny ==> tuples[i].grant != AclGrantV::Capability(capability),
{
    lemma_any_tuple(tuples, actor, path, AclEffect::Deny, capability);
    lemma_any_tuple(tuples, actor, path, AclEffect::Allow, capability);
    lemma_any_tuple(tuples, actor, path, AclEffect::Deny, Capability::Own);
    lemma_any_tuple(tuples, actor, path, AclEffect::Allow, Capability::Own);
    if any_reaching(tuples, actor, path, AclEffect::Allow, AclGrantV::Capability(capability)) {
        let i = choose|i: int|
            0 <= i < tuples.len() && reaches(#[trigger] tuples[i], actor, path) && tuples[i].effect
                == AclEffect::Allow && tuples[i].grant == AclGrantV::Capability(capability);
        assert(reaches(tuples[i], actor, path));
    } else {
        let i = choose|i: int|
            0 <= i < tuples.len() && reaches(#[trigger] tuples[i], actor, path) && tuples[i].effect
                == AclEffect::Allow && tuples[i].grant == AclGrantV::Capability(Capability::Own);
        assert(reaches(tuples[i], actor, path));
    }
}

/// A tuple that reaches the request and allows exactly what is asked allows it, and so does
/// one that allows ownership where none denies ownership, unless one denies what is asked.
pub proof fn law_a_grant_allows(
    tuples: Seq<AclTupleV>,
    i: int,
    actor: AclActorV,
    path: Seq<u8>,
    capability: Capability,
)
    requires
        0 <= i < tuples.len(),
        reaches(tuples[i], actor, path),
        tuples[i].effect == AclEffect::Allow,
        tuples[i].grant == AclGrantV::Capability(capability) || (tuples[i].grant
            == AclGrantV::Capability(Capability::Own) && forall|j: int|
            0 <= j < tuples.len() && reaches(#[trigger] tuples[j], actor, path) && tuples[j].effect
                == AclEffect::Deny ==> tuples[j].grant != AclGrantV::Capability(Capability::Own)),
        forall|j: int|
            0 <= j < tuples.len() && reaches(#[trigger] tuples[j], actor, path) && tuples[j].effect
                == AclEffect::Deny ==> tuples[j].grant != AclGrantV::Capability(capability),
    ensures
        decision(tuples, actor, path, capability) == AclDecision::Allow,
{
    lemma_any_tuple(tuples, actor, path, AclEffect::Deny, capability);
    lemma_any_tuple(tuples, actor, path, AclEffect::Allow, capability);
    lemma_any_tuple(tuples, actor, path, AclEffect::Deny, Capability::Own);
    lemma_any_tuple(tuples, actor, path, AclEffect::Allow, Capability::Own);
}

// --- which grants never do ---

proof fn lemma_any_more(
    tuples: Seq<AclTupleV>,
    t: AclTupleV,
    actor: AclActorV,
    path: Seq<u8>,
    effect: AclEffect,
    grant: AclGrantV,
)
    ensures
        any_reaching(tuples.push(t), actor, path, effect, grant) <==> any_reaching(
            tuples,
            actor,
            path,
            effect,
            grant,
        ) || (reaches(t, actor, path) && t.effect == effect && t.grant == grant),
{
    let more = tuples.push(t);
    if any_reaching(tuples, actor, path, effect, grant) {
        let i = choose|i: int|
            0 <= i < tuples.len() && reaches(#[trigger] tuples[i], actor, path) && tuples[i].effect
                == effect && tuples[i].grant == grant;
        assert(more[i] == tuples[i]);
    }
    if any_reaching(more, actor, path, effect, grant) {
        let i = choose|i: int|
            0 <= i < more.len() && reaches(#[trigger] more[i], actor, path) && more[i].effect
                == effect && more[i].grant == grant;
        if i < tuples.len() {
            assert(tuples[i] == more[i]);
        }
    }
    assert(more[tuples.len() as int] == t);
}

/// A tuple decides no request but those it reaches for what it grants: one more that does
/// not reach the request, that grants a role, or that grants a capability that is neither
/// the one asked for nor ownership, changes nothing.
pub proof fn law_other_grants_decide_nothing(
    tuples: Seq<AclTupleV>,
    t: AclTupleV,
    actor: AclActorV,
    path: Seq<u8>,
    capability: Capability,
)
    requires
        !reaches(t, actor, path) || t.grant is Role || (t.grant != AclGrantV::Capability(capability)
            && t.grant != AclGrantV::Capability(Capability::Own)),
    ensures
        decision(tuples.push(t), actor, path, capability) == decision(
            tuples,
            actor,
            path,
            capability,
        ),
{
    let more = tuples.push(t);
    lemma_any_tuple(tuples, actor, path, AclEffect::Deny, capability);
    lemma_any_tuple(tuples, actor, path, AclEffect::Allow, capability);
    lemma_any_tuple(tuples, actor, path, AclEffect::Deny, Capability::Own);
    lemma_any_tuple(tuples, actor, path, AclEffect::Allow, Capability::Own);
    lemma_any_tuple(more, actor, path, AclEffect::Deny, capability);
    lemma_any_tuple(more, actor, path, AclEffect::Allow, capability);
    lemma_any_tuple(more, actor, path, AclEffect::Deny, Capability::Own);
    lemma_any_tuple(more, actor, path, AclEffect::Allow, Capability::Own);
    let c = AclGrantV::Capability(capability);
    let o = AclGrantV::Capability(Capability::Own);
    lemma_any_more(tuples, t, actor, path, AclEffect::Deny, c);
    lemma_any_more(tuples, t, actor, path, AclEffect::Allow, c);
    lemma_any_more(tuples, t, actor, path, AclEffect::Deny, o);
    lemma_any_more(tuples, t, actor, path, AclEffect::Allow, o);
}

// --- roles ---

/// An actor holds a role just where its token asserts it or a tuple that reaches it there
/// allows exactly that role, and none that reaches it there denies it.
pub proof fn law_a_held_role_was_granted(
    tuples: Seq<AclTupleV>,
    actor: AclActorV,
    path: Seq<u8>,
    role: Seq<u8>,
)
    ensures
        holds_role(tuples, actor, path, role) <==> ((exists|i: int|
            0 <= i < actor.roles.len() && #[trigger] actor.roles[i] == role) || any_reaching(
            tuples,
            actor,
            path,
            AclEffect::Allow,
            AclGrantV::Role(role),
        )) && !any_reaching(tuples, actor, path, AclEffect::Deny, AclGrantV::Role(role)),
{
    lemma_any_role(tuples, actor, path, AclEffect::Allow, role);
    lemma_any_role(tuples, actor, path, AclEffect::Deny, role);
    if actor.roles.contains(role) {
        assert(actor.roles[actor.roles.index_of(role)] == role);
    }
}

proof fn lemma_any_role(
    tuples: Seq<AclTupleV>,
    actor: AclActorV,
    path: Seq<u8>,
    effect: AclEffect,
    role: Seq<u8>,
)
    ensures
        some_role(tuples, actor, path, effect, role) <==> any_reaching(
            tuples,
            actor,
            path,
            effect,
            AclGrantV::Role(role),
        ),
{
    if some_role(tuples, actor, path, effect, role) {
        let i = choose|i: int|
            0 <= i < tuples.len() && applies(#[trigger] tuples[i], actor, path) && tuples[i].effect
                == effect && tuples[i].grant == AclGrantV::Role(role);
        law_a_tuple_reaches_whom_it_names(tuples[i], actor, path);
        assert(reaches(tuples[i], actor, path));
    }
    if any_reaching(tuples, actor, path, effect, AclGrantV::Role(role)) {
        let i = choose|i: int|
            0 <= i < tuples.len() && reaches(#[trigger] tuples[i], actor, path) && tuples[i].effect
                == effect && tuples[i].grant == AclGrantV::Role(role);
        law_a_tuple_reaches_whom_it_names(tuples[i], actor, path);
        assert(applies(tuples[i], actor, path));
    }
}

// --- authority ---

/// With authority checked, an actor other than the creator is allowed only where a record
/// that reaches the request allows exactly what is asked, or ownership; and a request is
/// denied only where one that reaches it denies exactly what is asked.
pub proof fn law_an_authorized_verdict_was_granted(
    records: Seq<AclRecordV>,
    creator: ClientId,
    actor: AclActorV,
    path: Seq<u8>,
    capability: Capability,
)
    ensures
        authority_decision(records, creator, actor, path, capability) == AclDecision::Allow
            && actor.id != creator ==> exists|i: int|
            0 <= i < records.len() && reaches((#[trigger] records[i]).tuple, actor, path)
                && records[i].tuple.effect == AclEffect::Allow && (records[i].tuple.grant
                == AclGrantV::Capability(capability) || records[i].tuple.grant
                == AclGrantV::Capability(Capability::Own)),
        authority_decision(records, creator, actor, path, capability) == AclDecision::Deny
            ==> exists|i: int|
            0 <= i < records.len() && reaches((#[trigger] records[i]).tuple, actor, path)
                && records[i].tuple.effect == AclEffect::Deny && records[i].tuple.grant
                == AclGrantV::Capability(capability),
{
    let st = standing(records, creator);
    let d = authority_decision(records, creator, actor, path, capability);
    if d == AclDecision::Allow && actor.id != creator {
        let i = choose|i: int|
            0 <= i < records.len() && confers(
                #[trigger] records[i],
                st.rooted[i],
                st.revoked[i],
                actor,
                path,
                capability,
            ) && !suppressed(
                records,
                creator,
                actor,
                path,
                capability,
                records[i].tuple.grantor,
                records[i].tuple.grant == AclGrantV::Capability(Capability::Own),
                st,
            );
        law_a_tuple_reaches_whom_it_names(records[i].tuple, actor, path);
        assert(reaches(records[i].tuple, actor, path));
    }
    if d == AclDecision::Deny {
        let i = choose|i: int|
            0 <= i < records.len() && denies(
                #[trigger] records[i],
                st.revoked[i],
                actor,
                path,
                capability,
                false,
            );
        law_a_tuple_reaches_whom_it_names(records[i].tuple, actor, path);
        assert(reaches(records[i].tuple, actor, path));
    }
}

/// Whether no record is rooted.
spec fn none_rooted(st: Standing, n: nat) -> bool {
    st.rooted.len() == n && st.revoked.len() == n && forall|i: int|
        0 <= i < n ==> !#[trigger] st.rooted[i]
}

proof fn lemma_none_roots(records: Seq<AclRecordV>, creator: ClientId, st: Standing)
    requires
        none_rooted(st, records.len()),
        forall|i: int|
            0 <= i < records.len() ==> (#[trigger] records[i]).tuple.grantor != creator,
    ensures
        none_rooted(pass(records, creator, st), records.len()),
        forall|i: int| 0 <= i < records.len() ==> !#[trigger] rooted_next(records, creator, st)[i],
        rooted_next(records, creator, st).len() == records.len(),
{
    assert forall|i: int| 0 <= i < records.len() implies !#[trigger] rooted_next(
        records,
        creator,
        st,
    )[i] by {
        let r = records[i];
        assert(r.tuple.grantor != creator);
        if owns(records, creator, r.tuple.grantor, r.tuple.path, st) {
            let j = choose|j: int|
                0 <= j < records.len() && owner_grant(
                    #[trigger] records[j],
                    r.tuple.grantor,
                ) && is_prefix(records[j].tuple.path, r.tuple.path) && st.rooted[j]
                    && !st.revoked[j];
            assert(!st.rooted[j]);
        }
        assert(!roots(records, creator, r, st));
    }
}

proof fn lemma_none_settle(records: Seq<AclRecordV>, creator: ClientId, st: Standing, fuel: nat)
    requires
        none_rooted(st, records.len()),
        forall|i: int|
            0 <= i < records.len() ==> (#[trigger] records[i]).tuple.grantor != creator,
    ensures
        none_rooted(settle(records, creator, st, fuel).0, records.len()),
        none_rooted(settle_roots(records, creator, st, fuel), records.len()),
    decreases fuel,
{
    if fuel > 0 {
        lemma_none_roots(records, creator, st);
        let next = Standing { rooted: rooted_next(records, creator, st), revoked: st.revoked };
        lemma_none_settle(records, creator, pass(records, creator, st), (fuel - 1) as nat);
        lemma_none_settle(records, creator, next, (fuel - 1) as nat);
    }
}

/// Nobody grants themselves authority: where no record was made by the creator, no record
/// allows anyone anything, and whoever is not the creator is never allowed.
pub proof fn law_authority_comes_from_the_creator(
    records: Seq<AclRecordV>,
    creator: ClientId,
    actor: AclActorV,
    path: Seq<u8>,
    capability: Capability,
)
    requires
        actor.id != creator,
        forall|i: int|
            0 <= i < records.len() ==> (#[trigger] records[i]).tuple.grantor != creator,
    ensures
        authority_decision(records, creator, actor, path, capability) != AclDecision::Allow,
{
    let n = records.len();
    let (st, converged) = settle(records, creator, blank(n), 2 * n + 2);
    assert(none_rooted(blank(n), n));
    lemma_none_settle(records, creator, blank(n), 2 * n + 2);
    if !converged {
        let f = without_flux(records, creator, st);
        assert(none_rooted(f, n));
        lemma_none_settle(records, creator, f, n + 1);
    }
    let s = standing(records, creator);
    assert(none_rooted(s, n));
    assert forall|i: int| 0 <= i < n implies !#[trigger] s.rooted[i] by {}
}

/// Where no record that reaches a request speaks of what is asked or of ownership, nothing
/// decides it for whoever is not the creator.
pub proof fn law_no_record_of_another_kind_allows(
    records: Seq<AclRecordV>,
    creator: ClientId,
    actor: AclActorV,
    path: Seq<u8>,
    capability: Capability,
)
    requires
        actor.id != creator,
        forall|i: int|
            0 <= i < records.len() && reaches((#[trigger] records[i]).tuple, actor, path)
                ==> records[i].tuple.grant != AclGrantV::Capability(capability)
                && records[i].tuple.grant != AclGrantV::Capability(Capability::Own),
    ensures
        authority_decision(records, creator, actor, path, capability) == AclDecision::Abstain,
{
    law_an_authorized_verdict_was_granted(records, creator, actor, path, capability);
}

} // verus!
