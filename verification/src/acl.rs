//! Doc-level ACL: the authorization tuple and its evaluator.
//!
//! An owner assigns a capability or a role, to an actor or a group, on a path, with an
//! allow or deny effect. The evaluator has two layers:
//!
//! - the as-present decision ([`evaluate`], [`decide_capability`],
//!   [`effective_roles`]) reads tuples as stored, checking no authority;
//! - the authority layer ([`evaluate_with_authority`],
//!   [`decide_capability_with_authority`]) adds that the creator owns the root, that a
//!   grant confers authority only if its grantor validly held it, that a revoke counts
//!   only by the grantor, the creator or a valid owner, and that a deny binds only
//!   grants made at or below its author.

use crate::bytes::{bytes_eq, byte_strings, is_prefix, starts_with};
use crate::clientid::ClientId;
use crate::elementid::ElementId;
use crate::table::{lemma_entry, Key, Table};
use vstd::prelude::*;
use vstd::slice::slice_to_vec;

pub use crate::authority::{decide_capability_with_authority, evaluate_with_authority};

verus! {

/// Who a tuple grants to: a specific actor, a named group, or one of the well-known
/// classes.
#[derive(PartialEq, Eq, Debug)]
pub enum AclSubject {
    Actor(ClientId),
    Group(Vec<u8>),
    Authenticated,
    Anonymous,
    Anyone,
}

/// A direct capability a grant confers: the four powers over a subtree.
#[derive(Clone, Copy, PartialEq, Eq, Debug, Structural)]
pub enum Capability {
    Read,
    Write,
    PublishAwareness,
    Own,
}

/// What a tuple grants: a direct [`Capability`], or a schema-declared role by name.
#[derive(PartialEq, Eq, Debug)]
pub enum AclGrant {
    Capability(Capability),
    Role(Vec<u8>),
}

/// Whether a tuple allows or denies its grant.
#[derive(Clone, Copy, PartialEq, Eq, Debug, Structural)]
pub enum AclEffect {
    Allow,
    Deny,
}

/// A subject as a value.
pub enum AclSubjectV {
    Actor(ClientId),
    Group(Seq<u8>),
    Authenticated,
    Anonymous,
    Anyone,
}

/// A grant as a value.
pub enum AclGrantV {
    Capability(Capability),
    Role(Seq<u8>),
}

impl View for AclSubject {
    type V = AclSubjectV;

    open spec fn view(&self) -> AclSubjectV {
        match *self {
            AclSubject::Actor(id) => AclSubjectV::Actor(id),
            AclSubject::Group(name) => AclSubjectV::Group(name@),
            AclSubject::Authenticated => AclSubjectV::Authenticated,
            AclSubject::Anonymous => AclSubjectV::Anonymous,
            AclSubject::Anyone => AclSubjectV::Anyone,
        }
    }
}

impl View for AclGrant {
    type V = AclGrantV;

    open spec fn view(&self) -> AclGrantV {
        match *self {
            AclGrant::Capability(c) => AclGrantV::Capability(c),
            AclGrant::Role(name) => AclGrantV::Role(name@),
        }
    }
}

impl Clone for AclSubject {
    fn clone(&self) -> (r: Self)
        ensures
            r@ == self@,
    {
        match self {
            AclSubject::Actor(id) => AclSubject::Actor(*id),
            AclSubject::Group(name) => AclSubject::Group(slice_to_vec(name.as_slice())),
            AclSubject::Authenticated => AclSubject::Authenticated,
            AclSubject::Anonymous => AclSubject::Anonymous,
            AclSubject::Anyone => AclSubject::Anyone,
        }
    }
}

impl Clone for AclGrant {
    fn clone(&self) -> (r: Self)
        ensures
            r@ == self@,
    {
        match self {
            AclGrant::Capability(c) => AclGrant::Capability(*c),
            AclGrant::Role(name) => AclGrant::Role(slice_to_vec(name.as_slice())),
        }
    }
}

/// One stored authorization tuple. Immutable once created.
#[derive(PartialEq, Eq, Debug)]
pub struct AclTuple {
    pub id: ElementId,
    pub subject: AclSubject,
    pub grant: AclGrant,
    pub effect: AclEffect,
    /// A path into the document: a length-framed key path.
    pub path: Vec<u8>,
    /// The actor that authored the grant.
    pub grantor: ClientId,
}

/// A tuple as a value.
pub struct AclTupleV {
    pub id: ElementId,
    pub subject: AclSubjectV,
    pub grant: AclGrantV,
    pub effect: AclEffect,
    pub path: Seq<u8>,
    pub grantor: ClientId,
}

impl View for AclTuple {
    type V = AclTupleV;

    open spec fn view(&self) -> AclTupleV {
        AclTupleV {
            id: self.id,
            subject: self.subject@,
            grant: self.grant@,
            effect: self.effect,
            path: self.path@,
            grantor: self.grantor,
        }
    }
}

impl Clone for AclTuple {
    fn clone(&self) -> (r: Self)
        ensures
            r@ == self@,
    {
        AclTuple {
            id: self.id,
            subject: self.subject.clone(),
            grant: self.grant.clone(),
            effect: self.effect,
            path: slice_to_vec(self.path.as_slice()),
            grantor: self.grantor,
        }
    }
}

/// The querying actor: the id the server trusts for the connection, plus the
/// membership its credential asserts.
#[derive(PartialEq, Eq, Debug)]
pub struct AclActor {
    pub id: ClientId,
    /// The groups the credential asserts.
    pub groups: Vec<Vec<u8>>,
    /// The global (token) roles the credential asserts.
    pub roles: Vec<Vec<u8>>,
    /// Whether the connection authenticated.
    pub authenticated: bool,
}

/// An actor as a value.
pub struct AclActorV {
    pub id: ClientId,
    pub groups: Seq<Seq<u8>>,
    pub roles: Seq<Seq<u8>>,
    pub authenticated: bool,
}

impl View for AclActor {
    type V = AclActorV;

    open spec fn view(&self) -> AclActorV {
        AclActorV {
            id: self.id,
            groups: byte_strings(self.groups@),
            roles: byte_strings(self.roles@),
            authenticated: self.authenticated,
        }
    }
}

impl AclActor {
    /// An authenticated actor with no group or role membership.
    pub fn new(id: ClientId) -> (a: Self)
        ensures
            a@ == (AclActorV {
                id,
                groups: Seq::empty(),
                roles: Seq::empty(),
                authenticated: true,
            }),
    {
        let a = AclActor { id, groups: Vec::new(), roles: Vec::new(), authenticated: true };
        proof {
            assert(byte_strings(a.groups@) =~= Seq::empty());
            assert(byte_strings(a.roles@) =~= Seq::empty());
        }
        a
    }
}

/// A tier's verdict on a capability request. `Abstain` means no tuple governs it, so
/// a lower tier decides.
#[derive(Clone, Copy, PartialEq, Eq, Debug, Structural)]
pub enum AclDecision {
    Allow,
    Deny,
    Abstain,
}

/// A stored tuple together with the actors that have revoked it.
#[derive(PartialEq, Eq, Debug)]
pub struct AclRecord {
    pub tuple: AclTuple,
    pub revoked_by: Vec<ClientId>,
}

/// A record as a value.
pub struct AclRecordV {
    pub tuple: AclTupleV,
    pub revoked_by: Seq<ClientId>,
}

impl View for AclRecord {
    type V = AclRecordV;

    open spec fn view(&self) -> AclRecordV {
        AclRecordV { tuple: self.tuple@, revoked_by: self.revoked_by@ }
    }
}

impl Clone for AclRecord {
    fn clone(&self) -> (r: Self)
        ensures
            r@ == self@,
    {
        AclRecord {
            tuple: self.tuple.clone(),
            revoked_by: slice_to_vec(self.revoked_by.as_slice()),
        }
    }
}

/// Tuples as values.
pub open spec fn tuples_view(s: Seq<AclTuple>) -> Seq<AclTupleV> {
    s.map_values(|t: AclTuple| t@)
}

/// Records as values.
pub open spec fn records_view(s: Seq<AclRecord>) -> Seq<AclRecordV> {
    s.map_values(|r: AclRecord| r@)
}

// --- matching ---

/// Whether a subject covers an actor: an actor id by equality, a group by membership,
/// a class by the actor's authentication state, `Anyone` always.
pub open spec fn subject_matches(subject: AclSubjectV, actor: AclActorV) -> bool {
    match subject {
        AclSubjectV::Actor(id) => id == actor.id,
        AclSubjectV::Group(g) => actor.groups.contains(g),
        AclSubjectV::Authenticated => actor.authenticated,
        AclSubjectV::Anonymous => !actor.authenticated,
        AclSubjectV::Anyone => true,
    }
}

/// Whether a tuple governs a request: its subject covers the actor and its path is
/// the requested one or an ancestor of it.
pub open spec fn applies(t: AclTupleV, actor: AclActorV, path: Seq<u8>) -> bool {
    subject_matches(t.subject, actor) && is_prefix(t.path, path)
}

/// Whether `list` holds `item`.
fn holds_bytes(list: &Vec<Vec<u8>>, item: &Vec<u8>) -> (b: bool)
    ensures
        b == byte_strings(list@).contains(item@),
{
    let mut i: usize = 0;
    while i < list.len()
        invariant
            i <= list@.len(),
            forall|j: int| 0 <= j < i ==> (#[trigger] list@[j])@ != item@,
        decreases list@.len() - i,
    {
        if bytes_eq(list[i].as_slice(), item.as_slice()) {
            proof {
                assert(byte_strings(list@)[i as int] == item@);
            }
            return true;
        }
        i += 1;
    }
    proof {
        if byte_strings(list@).contains(item@) {
            let j = byte_strings(list@).index_of(item@);
            assert(list@[j]@ == item@);
        }
    }
    false
}

impl AclSubject {
    /// Whether this subject covers `actor`.
    pub fn matches(&self, actor: &AclActor) -> (b: bool)
        ensures
            b == subject_matches(self@, actor@),
    {
        match self {
            AclSubject::Actor(id) => *id == actor.id,
            AclSubject::Group(g) => holds_bytes(&actor.groups, g),
            AclSubject::Authenticated => actor.authenticated,
            AclSubject::Anonymous => !actor.authenticated,
            AclSubject::Anyone => true,
        }
    }
}

/// Whether `scope` (a tuple's path) governs `target`: equal to it, or an ancestor of
/// it. Paths are length-framed key sequences, so a byte prefix that is a path ends on
/// a segment boundary, and the empty root path governs every path.
pub fn governs(scope: &[u8], target: &[u8]) -> (b: bool)
    ensures
        b == is_prefix(scope@, target@),
{
    starts_with(target, scope)
}

// --- the as-present decision ---

/// Whether some tuple governing the request has this effect on this capability.
pub open spec fn some_tuple(
    tuples: Seq<AclTupleV>,
    actor: AclActorV,
    path: Seq<u8>,
    effect: AclEffect,
    capability: Capability,
) -> bool {
    exists|i: int|
        0 <= i < tuples.len() && applies(#[trigger] tuples[i], actor, path) && tuples[i].effect
            == effect && tuples[i].grant == AclGrantV::Capability(capability)
}

/// Deny overrides; else an owner not denied ownership holds every capability; else an
/// explicit allow grants; else the tuple tier abstains.
pub open spec fn decision(
    tuples: Seq<AclTupleV>,
    actor: AclActorV,
    path: Seq<u8>,
    capability: Capability,
) -> AclDecision {
    if some_tuple(tuples, actor, path, AclEffect::Deny, capability) {
        AclDecision::Deny
    } else if some_tuple(tuples, actor, path, AclEffect::Allow, Capability::Own) && !some_tuple(
        tuples,
        actor,
        path,
        AclEffect::Deny,
        Capability::Own,
    ) {
        AclDecision::Allow
    } else if some_tuple(tuples, actor, path, AclEffect::Allow, capability) {
        AclDecision::Allow
    } else {
        AclDecision::Abstain
    }
}

/// The tuple tier's verdict on whether `actor` holds `capability` at `path`, over the
/// live tuple set, its authors' authority unchecked.
pub fn decide_capability(
    tuples: &[AclTuple],
    actor: &AclActor,
    path: &[u8],
    capability: Capability,
) -> (d: AclDecision)
    ensures
        d == decision(tuples_view(tuples@), actor@, path@, capability),
{
    let mut deny_cap: bool = false;
    let mut allow_cap: bool = false;
    let mut deny_own: bool = false;
    let mut allow_own: bool = false;
    let mut i: usize = 0;
    let ghost all = tuples_view(tuples@);
    while i < tuples.len()
        invariant
            i <= tuples@.len(),
            all == tuples_view(tuples@),
            deny_cap == some_tuple(all.take(i as int), actor@, path@, AclEffect::Deny, capability),
            allow_cap == some_tuple(all.take(i as int), actor@, path@, AclEffect::Allow, capability),
            deny_own == (capability != Capability::Own && some_tuple(
                all.take(i as int),
                actor@,
                path@,
                AclEffect::Deny,
                Capability::Own,
            )),
            allow_own == (capability != Capability::Own && some_tuple(
                all.take(i as int),
                actor@,
                path@,
                AclEffect::Allow,
                Capability::Own,
            )),
        decreases tuples@.len() - i,
    {
        let t = &tuples[i];
        proof {
            lemma_some_tuple_step(all, i as int, actor@, path@);
        }
        if t.subject.matches(actor) && governs(t.path.as_slice(), path) {
            if let AclGrant::Capability(c) = t.grant {
                match t.effect {
                    AclEffect::Deny => {
                        if c == capability {
                            deny_cap = true;
                        } else if c == Capability::Own {
                            deny_own = true;
                        }
                    },
                    AclEffect::Allow => {
                        if c == capability {
                            allow_cap = true;
                        } else if c == Capability::Own {
                            allow_own = true;
                        }
                    },
                }
            }
        }
        i += 1;
    }
    proof {
        assert(all.take(i as int) =~= all);
    }
    if deny_cap {
        return AclDecision::Deny;
    }
    if allow_own && !deny_own {
        return AclDecision::Allow;
    }
    if allow_cap {
        return AclDecision::Allow;
    }
    AclDecision::Abstain
}

proof fn lemma_some_tuple_step(all: Seq<AclTupleV>, i: int, actor: AclActorV, path: Seq<u8>)
    requires
        0 <= i < all.len(),
    ensures
        forall|e: AclEffect, c: Capability| #[trigger]
            some_tuple(all.take(i + 1), actor, path, e, c) == (some_tuple(
                all.take(i),
                actor,
                path,
                e,
                c,
            ) || (applies(all[i], actor, path) && all[i].effect == e && all[i].grant
                == AclGrantV::Capability(c))),
{
    let p = all.take(i);
    let q = all.take(i + 1);
    assert forall|e: AclEffect, c: Capability| #[trigger]
        some_tuple(q, actor, path, e, c) == (some_tuple(p, actor, path, e, c) || (applies(
            all[i],
            actor,
            path,
        ) && all[i].effect == e && all[i].grant == AclGrantV::Capability(c))) by {
        if some_tuple(p, actor, path, e, c) {
            let j = choose|j: int|
                0 <= j < p.len() && applies(#[trigger] p[j], actor, path) && p[j].effect == e
                    && p[j].grant == AclGrantV::Capability(c);
            assert(q[j] == p[j]);
        }
        if some_tuple(q, actor, path, e, c) {
            let j = choose|j: int|
                0 <= j < q.len() && applies(#[trigger] q[j], actor, path) && q[j].effect == e
                    && q[j].grant == AclGrantV::Capability(c);
            if j < i {
                assert(p[j] == q[j]);
            }
        }
        assert(q[i] == all[i]);
    }
}

/// Whether `actor` holds `capability` at `path`, over the live tuple set: denied
/// unless some tuple allows it.
pub fn evaluate(
    tuples: &[AclTuple],
    actor: &AclActor,
    path: &[u8],
    capability: Capability,
) -> (b: bool)
    ensures
        b == (decision(tuples_view(tuples@), actor@, path@, capability) == AclDecision::Allow),
{
    match decide_capability(tuples, actor, path, capability) {
        AclDecision::Allow => true,
        _ => false,
    }
}

// --- roles ---

/// Whether some tuple governing the request has this effect on this role.
pub open spec fn some_role(
    tuples: Seq<AclTupleV>,
    actor: AclActorV,
    path: Seq<u8>,
    effect: AclEffect,
    role: Seq<u8>,
) -> bool {
    exists|i: int|
        0 <= i < tuples.len() && applies(#[trigger] tuples[i], actor, path) && tuples[i].effect
            == effect && tuples[i].grant == AclGrantV::Role(role)
}

/// Whether `actor` effectively holds `role` at `path`: a token or an allow gives it
/// and no deny takes it away.
pub open spec fn holds_role(
    tuples: Seq<AclTupleV>,
    actor: AclActorV,
    path: Seq<u8>,
    role: Seq<u8>,
) -> bool {
    (actor.roles.contains(role) || some_role(tuples, actor, path, AclEffect::Allow, role))
        && !some_role(tuples, actor, path, AclEffect::Deny, role)
}

/// Whether byte strings are in strictly ascending order.
pub open spec fn ascending(s: Seq<Seq<u8>>) -> bool {
    forall|i: int, j: int|
        0 <= i < j < s.len() ==> crate::bytes::bytes_lt(#[trigger] s[i], #[trigger] s[j])
}

/// The roles `actor` effectively holds at `path`, sorted and without repeats: its
/// token roles and the roles the set assigns it, less any denied role.
pub fn effective_roles(tuples: &[AclTuple], actor: &AclActor, path: &[u8]) -> (roles: Vec<Vec<u8>>)
    ensures
        ascending(byte_strings(roles@)),
        forall|role: Seq<u8>| #[trigger]
            byte_strings(roles@).contains(role) <==> holds_role(
                tuples_view(tuples@),
                actor@,
                path@,
                role,
            ),
{
    let ghost all = tuples_view(tuples@);
    let ghost av = actor@;
    let mut allowed: Table<Vec<u8>, ()> = Table::new();
    let mut denied: Table<Vec<u8>, ()> = Table::new();
    let mut i: usize = 0;
    while i < actor.roles.len()
        invariant
            allowed.wf(),
            av == actor@,
            i <= actor.roles@.len(),
            forall|role: Seq<u8>| #[trigger]
                allowed@.dom().contains(role) <==> av.roles.take(i as int).contains(role),
        decreases actor.roles@.len() - i,
    {
        allowed.insert(slice_to_vec(actor.roles[i].as_slice()), ());
        proof {
            lemma_contains_step(av.roles, i as int);
        }
        i += 1;
    }
    proof {
        assert(av.roles.take(i as int) =~= av.roles);
    }
    let mut k: usize = 0;
    while k < tuples.len()
        invariant
            allowed.wf(),
            denied.wf(),
            all == tuples_view(tuples@),
            av == actor@,
            k <= tuples@.len(),
            forall|role: Seq<u8>| #[trigger]
                allowed@.dom().contains(role) <==> av.roles.contains(role) || some_role(
                    all.take(k as int),
                    av,
                    path@,
                    AclEffect::Allow,
                    role,
                ),
            forall|role: Seq<u8>| #[trigger]
                denied@.dom().contains(role) <==> some_role(
                    all.take(k as int),
                    av,
                    path@,
                    AclEffect::Deny,
                    role,
                ),
        decreases tuples@.len() - k,
    {
        let t = &tuples[k];
        proof {
            lemma_some_role_step(all, k as int, av, path@);
        }
        if t.subject.matches(actor) && governs(t.path.as_slice(), path) {
            if let AclGrant::Role(r) = &t.grant {
                match t.effect {
                    AclEffect::Allow => {
                        allowed.insert(slice_to_vec(r.as_slice()), ());
                    },
                    AclEffect::Deny => {
                        denied.insert(slice_to_vec(r.as_slice()), ());
                    },
                }
            }
        }
        k += 1;
    }
    proof {
        assert(all.take(k as int) =~= all);
    }
    let mut roles: Vec<Vec<u8>> = Vec::new();
    let mut j: usize = 0;
    let ghost e = allowed.entries@;
    while j < allowed.entries.len()
        invariant
            allowed.wf(),
            denied.wf(),
            e == allowed.entries@,
            j <= e.len(),
            forall|role: Seq<u8>| #[trigger]
                byte_strings(roles@).contains(role) <==> listed(e, j as int, role)
                    && !denied@.dom().contains(role),
            ascending(byte_strings(roles@)),
            forall|x: int, y: int|
                0 <= x < roles@.len() && j <= y < e.len() ==> crate::bytes::bytes_lt(
                    #[trigger] byte_strings(roles@)[x],
                    (#[trigger] e[y]).0@,
                ),
        decreases e.len() - j,
    {
        let key = &allowed.entries[j].0;
        let ghost before = byte_strings(roles@);
        if !denied.contains_key(key) {
            roles.push(slice_to_vec(key.as_slice()));
            proof {
                assert(byte_strings(roles@) =~= before.push(e[j as int].0@));
                assert forall|role: Seq<u8>| #[trigger]
                    byte_strings(roles@).contains(role) <==> (before.contains(role) || role
                        == e[j as int].0@) by {
                    lemma_push_contains(before, e[j as int].0@, role);
                }
            }
        }
        proof {
            assert forall|role: Seq<u8>| #[trigger]
                listed(e, j + 1, role) <==> listed(e, j as int, role) || role == e[j as int].0@ by {
                if role == e[j as int].0@ {
                    assert(e[j as int].0@ == role);
                }
            }
        }
        j += 1;
    }
    proof {
        assert forall|role: Seq<u8>| #[trigger]
            byte_strings(roles@).contains(role) <==> holds_role(all, av, path@, role) by {
            if listed(e, j as int, role) {
                let x = choose|x: int| 0 <= x < j && (#[trigger] e[x]).0@ == role;
                lemma_entry::<Vec<u8>, ()>(e, x);
            }
            if allowed@.dom().contains(role) {
                let x = crate::table::index_of::<Vec<u8>, ()>(e, role);
                assert(e[x].0@ == role);
            }
        }
    }
    roles
}

/// Whether one of the first `n` entries has this key.
spec fn listed(e: Seq<(Vec<u8>, ())>, n: int, key: Seq<u8>) -> bool {
    exists|x: int| 0 <= x < n && (#[trigger] e[x]).0@ == key
}

proof fn lemma_push_contains(s: Seq<Seq<u8>>, x: Seq<u8>, y: Seq<u8>)
    ensures
        s.push(x).contains(y) <==> s.contains(y) || y == x,
{
    if s.contains(y) {
        let i = s.index_of(y);
        assert(s.push(x)[i] == y);
    }
    if y == x {
        assert(s.push(x)[s.len() as int] == y);
    }
    if s.push(x).contains(y) {
        let i = s.push(x).index_of(y);
        if i < s.len() {
            assert(s[i] == y);
        }
    }
}

proof fn lemma_contains_step(s: Seq<Seq<u8>>, i: int)
    requires
        0 <= i < s.len(),
    ensures
        forall|x: Seq<u8>| #[trigger]
            s.take(i + 1).contains(x) <==> s.take(i).contains(x) || x == s[i],
{
    assert(s.take(i + 1) =~= s.take(i).push(s[i]));
    assert forall|x: Seq<u8>| #[trigger]
        s.take(i + 1).contains(x) <==> s.take(i).contains(x) || x == s[i] by {
        lemma_push_contains(s.take(i), s[i], x);
    }
}

proof fn lemma_some_role_step(all: Seq<AclTupleV>, i: int, actor: AclActorV, path: Seq<u8>)
    requires
        0 <= i < all.len(),
    ensures
        forall|e: AclEffect, role: Seq<u8>| #[trigger]
            some_role(all.take(i + 1), actor, path, e, role) == (some_role(
                all.take(i),
                actor,
                path,
                e,
                role,
            ) || (applies(all[i], actor, path) && all[i].effect == e && all[i].grant
                == AclGrantV::Role(role))),
{
    let p = all.take(i);
    let q = all.take(i + 1);
    assert forall|e: AclEffect, role: Seq<u8>| #[trigger]
        some_role(q, actor, path, e, role) == (some_role(p, actor, path, e, role) || (applies(
            all[i],
            actor,
            path,
        ) && all[i].effect == e && all[i].grant == AclGrantV::Role(role))) by {
        if some_role(p, actor, path, e, role) {
            let j = choose|j: int|
                0 <= j < p.len() && applies(#[trigger] p[j], actor, path) && p[j].effect == e
                    && p[j].grant == AclGrantV::Role(role);
            assert(q[j] == p[j]);
        }
        if some_role(q, actor, path, e, role) {
            let j = choose|j: int|
                0 <= j < q.len() && applies(#[trigger] q[j], actor, path) && q[j].effect == e
                    && q[j].grant == AclGrantV::Role(role);
            if j < i {
                assert(p[j] == q[j]);
            }
        }
        assert(q[i] == all[i]);
    }
}

} // verus!
