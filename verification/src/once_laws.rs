//! An op applies once: what a replica has applied never waits, and a repeat changes nothing.

use crate::annot::GroupKey;
use crate::clientid::ClientId;
use crate::deliver::{
    by_id, lemma_by_seq, lemma_members, lemma_others, lemma_pushed, lemma_removed,
};
use crate::doc::{
    by_seq, first_complete, group_of, groups_in, holds_op, lemma_commit_tagged, lemma_first_complete,
    lemma_plain_tagged, members_of, op_at, others_of, tagged, untagged, DocV,
};
use crate::elementid::ElementId;
use crate::identity::spec_span;
use crate::migrate::SlotRule;
use crate::mint::{groups_made, law_minted_ids_are_new};
use crate::op::{OpId, OpKindV, OpV};
use crate::project::ReadRule;
use crate::project_laws::lemma_scrubbed_keeps;
use crate::schema::SchemaV;
use crate::scope::{ops_served, split_groups};
use crate::snapshot::{held_checked, made_whole, parse_head, parse_held, parse_load, parse_state};
use crate::state::held_ids;
use crate::undo::HistoryV;
use crate::walk::zone_of_op;
use vstd::prelude::*;

verus! {

/// Whether no two ops have one id.
pub open spec fn ids_once(ops: Seq<OpV>) -> bool {
    forall|i: int, j: int|
        0 <= i < j < ops.len() ==> (#[trigger] ops[i]).id != (#[trigger] ops[j]).id
}

impl DocV {
    /// Whether each op the replica knows is applied or waits, not both, and waits once.
    pub open spec fn tells_apart(self) -> bool {
        ids_once(self.buffer) && forall|id: OpId| #[trigger]
            self.seen.contains(id) ==> !holds_op(self.buffer, id)
    }
}

pub(crate) proof fn lemma_ids_once(ops: Seq<OpV>)
    ensures
        ids_once(ops) <==> ops.no_duplicates() && by_id(ops),
{
    if ids_once(ops) {
        assert forall|x: OpV, y: OpV| #[trigger]
            ops.contains(x) && #[trigger] ops.contains(y) && x.id == y.id implies x == y by {
            let i: int = ops.index_of(x);
            let j: int = ops.index_of(y);
            assert(ops[i].id == ops[j].id);
        }
        assert forall|i: int, j: int| 0 <= i < j < ops.len() implies ops[i] != ops[j] by {
            assert(ops[i].id != ops[j].id);
        }
    }
    if ops.no_duplicates() && by_id(ops) {
        assert forall|i: int, j: int| 0 <= i < j < ops.len() implies (#[trigger] ops[i]).id != (
        #[trigger] ops[j]).id by {
            assert(ops.contains(ops[i]) && ops.contains(ops[j]));
        }
    }
}

pub(crate) proof fn lemma_holds(ops: Seq<OpV>, id: OpId)
    ensures
        holds_op(ops, id) <==> exists|x: OpV| #[trigger] ops.contains(x) && x.id == id,
{
    if holds_op(ops, id) {
        let i = choose|i: int| 0 <= i < ops.len() && (#[trigger] ops[i]).id == id;
        assert(ops.contains(ops[i]));
    }
    if exists|x: OpV| #[trigger] ops.contains(x) && x.id == id {
        let x = choose|x: OpV| #[trigger] ops.contains(x) && x.id == id;
        assert(ops[ops.index_of(x)].id == id);
    }
}

/// Ops among others keep their ids apart, and have no other ids.
proof fn lemma_part(part: Seq<OpV>, ops: Seq<OpV>)
    requires
        ids_once(ops),
        part.no_duplicates(),
        forall|x: OpV| #[trigger] part.contains(x) ==> ops.contains(x),
    ensures
        ids_once(part),
        forall|id: OpId| #[trigger] holds_op(part, id) ==> holds_op(ops, id),
{
    lemma_ids_once(ops);
    assert(by_id(part)) by {
        assert forall|x: OpV, y: OpV| #[trigger]
            part.contains(x) && #[trigger] part.contains(y) && x.id == y.id implies x == y by {
            assert(ops.contains(x) && ops.contains(y));
        }
    }
    lemma_ids_once(part);
    assert forall|id: OpId| #[trigger] holds_op(part, id) implies holds_op(ops, id) by {
        lemma_holds(part, id);
        lemma_holds(ops, id);
    }
}

proof fn lemma_push_once(ops: Seq<OpV>, b: OpV)
    requires
        ids_once(ops),
        !holds_op(ops, b.id),
    ensures
        ids_once(ops.push(b)),
        forall|id: OpId| #[trigger]
            holds_op(ops.push(b), id) <==> holds_op(ops, id) || id == b.id,
{
    let n = ops.push(b);
    assert forall|id: OpId| #[trigger] holds_op(n, id) <==> holds_op(ops, id) || id == b.id by {
        lemma_pushed(ops, b);
        lemma_holds(n, id);
        lemma_holds(ops, id);
        if holds_op(ops, id) {
            let x = choose|x: OpV| #[trigger] ops.contains(x) && x.id == id;
            assert(n.contains(x));
        }
        assert(n.contains(b));
    }
    assert forall|i: int, j: int| 0 <= i < j < n.len() implies (#[trigger] n[i]).id != (
    #[trigger] n[j]).id by {
        if j < ops.len() {
            assert(ops[i].id != ops[j].id);
        } else {
            assert(n[i] == ops[i]);
        }
    }
}

proof fn lemma_released(d: DocV, i: int)
    requires
        d.tells_apart(),
        0 <= i < d.buffer.len(),
    ensures
        (DocV { buffer: d.buffer.remove(i), ..d }).applied(d.buffer[i]).tells_apart(),
{
    let b = d.buffer[i];
    let e = (DocV { buffer: d.buffer.remove(i), ..d }).applied(b);
    lemma_ids_once(d.buffer);
    lemma_removed(d.buffer, i);
    lemma_part(d.buffer.remove(i), d.buffer);
    assert(e.buffer == d.buffer.remove(i));
    assert(e.seen =~= d.seen.insert(b.id));
    assert(d.buffer.contains(b));
    lemma_holds(e.buffer, b.id);
}

proof fn lemma_plain_apart(d: DocV)
    requires
        d.tells_apart(),
    ensures
        d.drained_plain().tells_apart(),
    decreases d.buffer.len(),
{
    if let Some(i) = d.first_ready(0) {
        if i < d.buffer.len() {
            lemma_released(d, i as int);
            lemma_plain_apart(
                (DocV { buffer: d.buffer.remove(i as int), ..d }).applied(d.buffer[i as int]),
            );
        }
    }
}

proof fn lemma_resolved_apart(d: DocV, key: GroupKey)
    requires
        d.tells_apart(),
    ensures
        d.with_resolved(key).tells_apart(),
        d.with_resolved(key).seen == d.seen,
        forall|id: OpId| #[trigger]
            holds_op(d.with_resolved(key).buffer, id) ==> holds_op(d.buffer, id),
{
    let e = d.with_resolved(key);
    assert(e.buffer.len() == d.buffer.len());
    assert forall|i: int| 0 <= i < d.buffer.len() implies (#[trigger] e.buffer[i]).id
        == d.buffer[i].id by {}
    assert forall|id: OpId| #[trigger] holds_op(e.buffer, id) implies holds_op(d.buffer, id) by {
        let i = choose|i: int| 0 <= i < e.buffer.len() && (#[trigger] e.buffer[i]).id == id;
        assert(d.buffer[i].id == id);
    }
    assert forall|i: int, j: int| 0 <= i < j < e.buffer.len() implies (#[trigger] e.buffer[i]).id
        != (#[trigger] e.buffer[j]).id by {
        assert(d.buffer[i].id != d.buffer[j].id);
    }
}

proof fn lemma_members_apart(d: DocV, ops: Seq<OpV>)
    requires
        d.tells_apart(),
        ids_once(ops),
        forall|id: OpId| #[trigger] holds_op(ops, id) ==> !d.has_op(id),
    ensures
        d.with_members(ops).tells_apart(),
        forall|id: OpId| #[trigger]
            d.with_members(ops).has_op(id) ==> d.has_op(id) || holds_op(ops, id),
    decreases ops.len(),
{
    if ops.len() > 0 {
        let h = ops.drop_last();
        let o = ops.last();
        assert(h.push(o) =~= ops);
        assert(ids_once(h)) by {
            assert forall|i: int, j: int| 0 <= i < j < h.len() implies (#[trigger] h[i]).id != (
            #[trigger] h[j]).id by {
                assert(ops[i].id != ops[j].id);
            }
        }
        assert(!holds_op(h, o.id)) by {
            if holds_op(h, o.id) {
                let i = choose|i: int| 0 <= i < h.len() && (#[trigger] h[i]).id == o.id;
                assert(ops[i].id != ops[ops.len() - 1].id);
            }
        }
        lemma_push_once(h, o);
        assert forall|id: OpId| #[trigger] holds_op(h, id) implies !d.has_op(id) by {
            assert(holds_op(ops, id));
        }
        assert(holds_op(ops, o.id));
        lemma_members_apart(d, h);
        let e = d.with_members(h);
        let b = OpV { tx: None, ..o };
        assert(!e.has_op(o.id));
        if !e.tree.ready(o) {
            lemma_push_once(e.buffer, b);
        } else {
            assert(e.applied(o).seen =~= e.seen.insert(o.id));
            assert(e.applied(o).buffer == e.buffer);
        }
        assert(d.with_members(ops) == e.with_member(o));
        assert forall|id: OpId| #[trigger] d.with_members(ops).has_op(id) implies d.has_op(id)
            || holds_op(ops, id) by {
            if id != o.id {
                if !e.tree.ready(o) {
                    assert(holds_op(e.buffer.push(b), id) <==> holds_op(e.buffer, id) || id
                        == b.id);
                }
                assert(e.has_op(id));
                if holds_op(h, id) {
                    assert(holds_op(h.push(o), id));
                }
            }
        }
    }
}

proof fn lemma_drain_apart(d: DocV)
    requires
        d.tells_apart(),
    ensures
        d.drained().tells_apart(),
    decreases tagged(d.buffer),
{
    reveal(DocV::drained);
    let e = d.drained_plain();
    lemma_plain_apart(d);
    lemma_plain_tagged(d);
    lemma_first_complete(e.buffer, 0);
    if let Some(i) = first_complete(e.buffer, 0) {
        lemma_commit_tagged(e, i as int);
        let key = group_of(e.buffer[i as int])->Some_0;
        let ms = members_of(e.buffer, key);
        let others = others_of(e.buffer, key);
        let f = DocV { buffer: others, ..e };
        lemma_ids_once(e.buffer);
        lemma_members(e.buffer, key);
        lemma_others(e.buffer, key);
        lemma_by_seq(ms);
        lemma_part(others, e.buffer);
        lemma_part(by_seq(ms), e.buffer);
        assert(f.tells_apart());
        lemma_resolved_apart(f, key);
        let g = f.with_resolved(key);
        assert forall|id: OpId| #[trigger] holds_op(by_seq(ms), id) implies !g.has_op(id) by {
            lemma_holds(by_seq(ms), id);
            lemma_holds(others, id);
            if holds_op(others, id) {
                let x = choose|x: OpV| #[trigger] others.contains(x) && x.id == id;
                let y = choose|y: OpV| #[trigger] by_seq(ms).contains(y) && y.id == id;
                assert(ms.contains(y));
                assert(e.buffer.contains(x) && e.buffer.contains(y));
            }
        }
        lemma_members_apart(g, by_seq(ms));
        lemma_drain_apart(e.committed(key));
    }
}

/// A new replica knows no op.
pub proof fn law_a_new_replica_tells_apart(c: ClientId)
    ensures
        DocV::empty(c).tells_apart(),
{
}

/// Whatever arrives, what a replica has applied never waits, and what waits does so once.
pub proof fn law_arrivals_keep_ops_apart(d: DocV, op: OpV)
    requires
        d.tells_apart(),
    ensures
        d.with_op(op).tells_apart(),
{
    let o = d.unstrayed(op);
    if d.has_op(op.id) {
        if let Some(mine) = op_at(d.buffer, op.id) {
            if let (Some(tx), Some(t)) = (op.tx, mine.tx) {
                let a = GroupKey { client: op.id.client, tx: t.id };
                let b = GroupKey { client: op.id.client, tx: tx.id };
                lemma_resolved_apart(d, a);
                lemma_resolved_apart(d.with_resolved(a), b);
                lemma_drain_apart(d.with_resolved(a).with_resolved(b));
            }
        }
    } else {
        assert(o.id == op.id);
        lemma_push_once(d.buffer, o);
        assert(d.held(o).buffer == d.buffer.push(o) && d.held(o).seen == d.seen);
        lemma_drain_apart(d.held(o));
        assert(d.applied(o).buffer == d.buffer);
        assert(d.applied(o).seen =~= d.seen.insert(o.id));
        assert(d.applied(o).tells_apart());
        lemma_drain_apart(d.applied(o));
    }
}

/// An edit's op is applied where it is made, and nowhere waits.
pub proof fn law_edits_keep_ops_apart(d: DocV, target: ElementId, kind: OpKindV)
    requires
        d.tells_apart(),
        d.seen.finite(),
        d.seen.len() + d.buffer.len() < 0x1_0000_0000_0000_0000,
    ensures
        d.emitted(target, kind).tells_apart(),
        d.emitted(target, kind).ended().tells_apart(),
{
    reveal(DocV::emitted);
    reveal(DocV::ended);
    if let Some(stamp) = d.mint(target, kind) {
        let zone = zone_of_op(d.tree, d.schema, target, kind);
        let a = d.advanced(
            zone,
            (stamp.lamport + spec_span(kind) - 1) as u64,
        );
        law_minted_ids_are_new(a, a.seq);
    }
    lemma_drain_apart(d.emitted(target, kind));
}

// --- however a replica comes about ---

/// Ops with the same ids, one by one, are told apart alike.
proof fn lemma_same_ids(a: Seq<OpV>, b: Seq<OpV>)
    requires
        a.len() == b.len(),
        forall|i: int| 0 <= i < a.len() ==> (#[trigger] a[i]).id == b[i].id,
    ensures
        ids_once(a) ==> ids_once(b),
        forall|id: OpId| #[trigger] holds_op(a, id) == holds_op(b, id),
{
    assert forall|id: OpId| #[trigger] holds_op(a, id) == holds_op(b, id) by {
        if holds_op(a, id) {
            let i = choose|i: int| 0 <= i < a.len() && (#[trigger] a[i]).id == id;
            assert(b[i].id == id);
        }
        if holds_op(b, id) {
            let i = choose|i: int| 0 <= i < b.len() && (#[trigger] b[i]).id == id;
            assert(a[i].id == id);
        }
    }
    if ids_once(a) {
        assert forall|i: int, j: int| 0 <= i < j < b.len() implies (#[trigger] b[i]).id != (
        #[trigger] b[j]).id by {
            assert(a[i].id == b[i].id && a[j].id == b[j].id);
        }
    }
}

/// Ops that were checked are told apart, and none was applied.
proof fn lemma_checked_apart(ops: Seq<OpV>, seen: Set<OpId>, n: nat)
    requires
        n <= ops.len(),
        held_checked(ops, seen, n) is Ok,
    ensures
        ids_once(ops.take(n as int)),
        forall|i: int| 0 <= i < n ==> !seen.contains((#[trigger] ops[i]).id),
    decreases n,
{
    if n > 0 {
        lemma_checked_apart(ops, seen, (n - 1) as nat);
        let h = ops.take(n - 1);
        let q = ops.take(n as int);
        assert forall|i: int, j: int| 0 <= i < j < q.len() implies (#[trigger] q[i]).id != (
        #[trigger] q[j]).id by {
            assert(h[i] == q[i]);
            if j < n - 1 {
                assert(h[j] == q[j]);
            }
        }
    }
}

/// A replica that was read from bytes tells its ops apart: bytes in which an op that was
/// applied waits, or one waits twice, are refused.
pub proof fn law_a_loaded_replica_tells_apart(s: Seq<u8>)
    ensures
        parse_state(s) matches Ok((d, r)) ==> d.tells_apart(),
{
    if let Ok((d, r)) = parse_state(s) {
        let (h, a) = parse_head(s)->Ok_0;
        let (l, b) = parse_load(a)->Ok_0;
        let (ops, c) = parse_held(b)->Ok_0;
        lemma_checked_apart(ops, l.seen, ops.len());
        assert(ops.take(ops.len() as int) =~= ops);
        let e = DocV {
            client: h.client,
            tree: made_whole(l, ops),
            lamport: h.lamport,
            zone_clocks: l.zone_clocks,
            mint_refused: false,
            seq: h.seq,
            atomic: None,
            seen: l.seen,
            buffer: untagged(ops, l.resolved),
            resolved: l.resolved,
            pending: Seq::empty(),
            schema: None,
            history: HistoryV::empty(),
        };
        lemma_same_ids(ops, e.buffer);
        assert forall|id: OpId| #[trigger] e.seen.contains(id) implies !holds_op(e.buffer, id) by {
            if holds_op(ops, id) {
                let i = choose|i: int| 0 <= i < ops.len() && (#[trigger] ops[i]).id == id;
            }
        }
        lemma_drain_apart(e);
    }
}

/// Giving up on the groups that wait keeps ops apart.
pub proof fn law_eviction_keeps_ops_apart(d: DocV)
    requires
        d.tells_apart(),
    ensures
        d.evicted().tells_apart(),
{
    let e = DocV {
        resolved: d.resolved.union(groups_in(d.buffer)),
        buffer: d.buffer.map_values(|op: OpV| OpV { tx: None, ..op }),
        ..d
    };
    lemma_same_ids(d.buffer, e.buffer);
    lemma_drain_apart(e);
}

/// Committing a transaction keeps ops apart.
pub proof fn law_commits_keep_ops_apart(d: DocV)
    requires
        d.tells_apart(),
    ensures
        d.committed_atomic().tells_apart(),
{
    reveal(DocV::committed_atomic);
    reveal(DocV::grouped);
    if let Some(ops) = d.atomic {
        let made = groups_made(d.client, ops);
        let res = d.resolved.union(made);
        let e = DocV {
            atomic: None,
            history: d.history.close(true),
            resolved: res,
            buffer: untagged(d.buffer, res),
            ..d
        };
        lemma_same_ids(d.buffer, e.buffer);
        lemma_drain_apart(e);
    }
}

/// Migrating keeps ops apart.
pub proof fn law_migration_keeps_ops_apart<R: SlotRule>(d: DocV, rule: &R)
    requires
        d.tells_apart(),
    ensures
        d.migrated(rule).tells_apart(),
{
}

proof fn lemma_served_apart(authorized: Seq<u32>, ops: Seq<OpV>)
    ensures
        ids_once(ops) ==> ids_once(ops_served(authorized, ops)),
        forall|id: OpId| #[trigger]
            holds_op(ops_served(authorized, ops), id) ==> holds_op(ops, id),
    decreases ops.len(),
{
    if ops.len() > 0 {
        let h = ops.drop_last();
        let o = ops.last();
        let s = ops_served(authorized, h);
        lemma_served_apart(authorized, h);
        assert(h.push(o) =~= ops);
        assert forall|id: OpId| #[trigger] holds_op(h, id) implies holds_op(ops, id) by {
            let i = choose|i: int| 0 <= i < h.len() && (#[trigger] h[i]).id == id;
            assert(ops[i].id == id);
        }
        assert(ops[ops.len() - 1] == o);
        assert(holds_op(ops, o.id));
        if ids_once(ops) {
            assert(ids_once(h)) by {
                assert forall|i: int, j: int| 0 <= i < j < h.len() implies (#[trigger] h[i]).id != (
                #[trigger] h[j]).id by {
                    assert(ops[i] == h[i] && ops[j] == h[j]);
                }
            }
            assert(!holds_op(h, o.id)) by {
                if holds_op(h, o.id) {
                    let i = choose|i: int| 0 <= i < h.len() && (#[trigger] h[i]).id == o.id;
                    assert(ops[i].id == ops[ops.len() - 1].id);
                }
            }
            lemma_push_once(s, o);
        }
        let n = ops_served(authorized, ops);
        assert forall|id: OpId| #[trigger] holds_op(n, id) implies holds_op(ops, id) by {
            let i = choose|i: int| 0 <= i < n.len() && (#[trigger] n[i]).id == id;
            if i < s.len() {
                assert(s[i].id == id);
                assert(holds_op(s, id));
            }
        }
    }
}

/// Narrowing a replica to what a reader may read, or to some zones, keeps ops apart.
pub proof fn law_projections_keep_ops_apart<R: ReadRule>(
    d: DocV,
    rule: &R,
    schema: SchemaV,
    authorized: Seq<u32>,
    recipient: Option<ClientId>,
)
    requires
        d.tells_apart(),
    ensures
        d.projected_reads(rule, recipient).tells_apart(),
        d.projected_zones(schema, authorized, recipient).tells_apart(),
{
    let s = d.tree.read_scope(rule);
    let e = DocV {
        tree: s.tree.refolded(),
        buffer: Seq::empty(),
        resolved: Set::empty(),
        seen: d.published(recipient),
        ..d
    };
    lemma_scrubbed_keeps(e, recipient);
    let served = ops_served(authorized, d.buffer);
    let buffer = untagged(served, split_groups(authorized, d.buffer));
    let f = DocV {
        tree: d.tree.zone_scope(schema, authorized),
        zone_clocks: d.zone_clocks.restrict(Set::new(|z: u32| authorized.contains(z))),
        buffer,
        resolved: Set::empty(),
        seen: d.published(recipient).difference(held_ids(buffer)),
        ..d
    };
    lemma_scrubbed_keeps(f, recipient);
    lemma_served_apart(authorized, d.buffer);
    lemma_same_ids(served, buffer);
}

/// An op that was applied changes nothing when it comes again.
pub proof fn law_applied_ops_apply_once(d: DocV, op: OpV)
    requires
        d.tells_apart(),
        d.seen.contains(op.id),
    ensures
        d.with_op(op) == d,
        !d.applies_now(op),
{
    assert(!holds_op(d.buffer, op.id));
}

} // verus!
