//! Delivery: whatever order authored ops arrive in, a replica ends up the same.

use crate::annot::{GroupKey, Placement};
use crate::authored::{
    authored_alone, lemma_applied_figures, lemma_pool_rank, lemma_runs_none, lemma_runs_push,
    runs_in_turn, same_standing,
};
use crate::client::with_ops;
use crate::clientid::ClientId;
use crate::converge::{lemma_raised, lemma_record, lemma_wet_kind, lemma_wet_ready, raised, wet};
use crate::doc::{
    all_declare, by_seq, complete, complete_at, first_complete, group_of, holds_op,
    lemma_commit_tagged, lemma_first_complete, lemma_plain_tagged, members_of, op_at, others_of,
    put_by_seq, tagged, untagged, DocV,
};
use crate::elementid::ElementId;
use crate::gist::lemma_gist_doms;
use crate::grown::{lemma_grown, seated};
use crate::identity::{admissible, spec_span};
use crate::list_state::as_written;
use crate::op::{OpId, OpV};
use crate::reorder::{alike, can_follow, exhausts, lemma_runs_within, lemma_same_ops};
use crate::shown::{lemma_run_shown, lemma_shown_alike, lemma_wet_shown, shown_right};
use crate::state::is_spelled;
use crate::tree::TreeV;
use vstd::prelude::*;

verus! {

// --- what arrives ---

/// An op with its group taken off.
pub open spec fn bare(op: OpV) -> OpV {
    OpV { tx: None, ..op }
}

/// Some ops with their groups taken off.
pub open spec fn bares(ops: Seq<OpV>) -> Set<OpV> {
    Set::new(|b: OpV| exists|op: OpV| #[trigger] ops.contains(op) && bare(op) == b)
}

/// Whether the members of each group declare one size.
pub open spec fn grouped(ops: Seq<OpV>) -> bool {
    forall|x: OpV, y: OpV| #[trigger]
        ops.contains(x) && #[trigger] ops.contains(y) && group_of(x) is Some && group_of(x)
            == group_of(y) ==> x.tx->Some_0.count == y.tx->Some_0.count && x.tx->Some_0.count >= 1
}

/// Whether no two of some ops have one id.
pub open spec fn by_id(ops: Seq<OpV>) -> bool {
    forall|x: OpV, y: OpV| #[trigger]
        ops.contains(x) && #[trigger] ops.contains(y) && x.id == y.id ==> x == y
}

/// Whether ops are such as replicas author, on their own or in atomic groups.
pub open spec fn authored(ops: Seq<OpV>) -> bool {
    authored_alone(bares(ops)) && by_id(ops) && grouped(ops)
}

/// The figures of published stamps that ops leave, in turn.
pub(crate) open spec fn figures(p: Seq<OpV>) -> Map<ClientId, u64>
    decreases p.len(),
{
    if p.len() == 0 {
        Map::empty()
    } else {
        raised(figures(p.drop_last()), p.last().stamp, spec_span(p.last().kind))
    }
}

/// Whether an op waits for no group.
pub(crate) open spec fn freed(res: Set<GroupKey>, op: OpV) -> bool {
    match group_of(op) {
        Some(k) => res.contains(k),
        None => true,
    }
}

/// An op as it waits.
pub(crate) open spec fn shown(res: Set<GroupKey>, op: OpV) -> OpV {
    if freed(res, op) {
        bare(op)
    } else {
        op
    }
}

/// Whether a group has as many members as they declare.
pub(crate) open spec fn settled(p: Seq<OpV>, k: GroupKey) -> bool {
    exists|op: OpV| #[trigger]
        p.contains(op) && group_of(op) == Some(k) && members_of(p, k).len() >= op.tx->Some_0.count
}

/// Whether something waiting is one of the ops that arrived.
pub(crate) open spec fn waits_of(p: Seq<OpV>, res: Set<GroupKey>, b: OpV) -> bool {
    exists|op: OpV| #[trigger] p.contains(op) && b == shown(res, op)
}

/// Whether something applied is one of the ops that arrived.
pub(crate) open spec fn ran_of(p: Seq<OpV>, res: Set<GroupKey>, b: OpV) -> bool {
    exists|op: OpV| #[trigger] p.contains(op) && b == bare(op) && freed(res, op)
}

/// Where an op that arrived is.
pub(crate) open spec fn kept(d: DocV, l: Seq<OpV>, todo: Set<OpV>, op: OpV) -> bool {
    l.contains(bare(op)) || d.buffer.contains(shown(d.resolved, op)) || todo.contains(op)
}

/// Whether a replica has the standing a run ends in.
#[verifier::opaque]
pub(crate) open spec fn stands_at(c: ClientId, d: DocV, l: Seq<OpV>) -> bool {
    let e = DocV::empty(c).ran(l);
    &&& wet(d.tree, Map::empty()) == wet(e.tree, Map::empty())
    &&& d.lamport == e.lamport
    &&& d.zone_clocks == e.zone_clocks
    &&& d.seen == e.seen
}

/// Whether a replica is where the ops `p` leave it, with the ops `l` applied in turn, the
/// groups `own` settled here and the members `todo` of a group about to apply.
#[verifier::opaque]
pub(crate) open spec fn stands(
    c: ClientId,
    pool: Set<OpV>,
    own: Set<GroupKey>,
    d: DocV,
    p: Seq<OpV>,
    l: Seq<OpV>,
    todo: Set<OpV>,
) -> bool {
    &&& runs_in_turn(c, pool, l)
    &&& stands_at(c, d, l)
    &&& d.tree.high_water == figures(p)
    &&& p.no_duplicates()
    &&& by_id(p)
    &&& d.buffer.no_duplicates()
    &&& forall|op: OpV| #[trigger] p.contains(op) ==> pool.contains(bare(op))
    &&& forall|op: OpV| #[trigger] p.contains(op) ==> kept(d, l, todo, op)
    &&& forall|b: OpV| #[trigger]
        d.buffer.contains(b) ==> !l.contains(bare(b)) && waits_of(p, d.resolved, b)
    &&& forall|b: OpV| #[trigger] l.contains(b) ==> ran_of(p, d.resolved, b)
    &&& forall|op: OpV| #[trigger]
        todo.contains(op) ==> p.contains(op) && freed(d.resolved, op) && !l.contains(bare(op))
            && !d.buffer.contains(bare(op))
    &&& forall|k: GroupKey| #[trigger]
        d.resolved.contains(k) ==> own.contains(k) || settled(p, k)
    &&& forall|op: OpV| #[trigger]
        p.contains(op) && !freed(d.resolved, op) ==> members_of(p, group_of(op)->Some_0).len()
            <= op.tx->Some_0.count
}

/// Whether nothing that waits can apply.
#[verifier::opaque]
pub(crate) open spec fn quiet(d: DocV) -> bool {
    &&& forall|i: int|
        0 <= i < d.buffer.len() && (#[trigger] d.buffer[i]).tx is None ==> !d.tree.ready(
            d.buffer[i],
        )
    &&& forall|i: int| 0 <= i < d.buffer.len() ==> !complete_at(d.buffer, i)
}

// --- sequences ---

pub(crate) proof fn lemma_pushed(s: Seq<OpV>, b: OpV)
    ensures
        forall|x: OpV| #[trigger] s.push(b).contains(x) <==> s.contains(x) || x == b,
        s.no_duplicates() && !s.contains(b) ==> s.push(b).no_duplicates(),
{
    assert forall|x: OpV| #[trigger] s.push(b).contains(x) <==> s.contains(x) || x == b by {
        if s.contains(x) {
            assert(s.push(b)[s.index_of(x)] == x);
        }
        assert(s.push(b)[s.len() as int] == b);
    }
    if s.no_duplicates() && !s.contains(b) {
        let n = s.push(b);
        assert forall|i: int, j: int| 0 <= i < j < n.len() implies n[i] != n[j] by {
            assert(s.contains(s[i]));
        }
    }
}

pub(crate) proof fn lemma_removed(s: Seq<OpV>, i: int)
    requires
        s.no_duplicates(),
        0 <= i < s.len(),
    ensures
        forall|x: OpV| #[trigger] s.remove(i).contains(x) <==> s.contains(x) && x != s[i],
        s.remove(i).no_duplicates(),
{
    let r = s.remove(i);
    assert forall|x: OpV| #[trigger] r.contains(x) <==> s.contains(x) && x != s[i] by {
        if r.contains(x) {
            let j: int = r.index_of(x);
            if j < i {
                assert(s[j] == x);
            } else {
                assert(s[j + 1] == x);
            }
        }
        if s.contains(x) && x != s[i] {
            let j: int = s.index_of(x);
            if j < i {
                assert(r[j] == x);
            } else {
                assert(r[j - 1] == x);
            }
        }
    }
}

pub(crate) proof fn lemma_members(s: Seq<OpV>, k: GroupKey)
    ensures
        forall|x: OpV| #[trigger]
            members_of(s, k).contains(x) <==> s.contains(x) && group_of(x) == Some(k),
        s.no_duplicates() ==> members_of(s, k).no_duplicates(),
    decreases s.len(),
{
    if s.len() > 0 {
        let h = s.drop_last();
        lemma_members(h, k);
        lemma_pushed(h, s.last());
        lemma_pushed(members_of(h, k), s.last());
        assert(h.push(s.last()) =~= s);
        if s.no_duplicates() && h.contains(s.last()) {
            let i: int = h.index_of(s.last());
            assert(s[i] == s[s.len() - 1]);
        }
    }
}

pub(crate) proof fn lemma_others(s: Seq<OpV>, k: GroupKey)
    ensures
        forall|x: OpV| #[trigger]
            others_of(s, k).contains(x) <==> s.contains(x) && group_of(x) != Some(k),
        s.no_duplicates() ==> others_of(s, k).no_duplicates(),
    decreases s.len(),
{
    if s.len() > 0 {
        let h = s.drop_last();
        lemma_others(h, k);
        lemma_pushed(h, s.last());
        lemma_pushed(others_of(h, k), s.last());
        assert(h.push(s.last()) =~= s);
        if s.no_duplicates() && h.contains(s.last()) {
            let i: int = h.index_of(s.last());
            assert(s[i] == s[s.len() - 1]);
        }
    }
}

proof fn lemma_put_by_seq(s: Seq<OpV>, op: OpV)
    ensures
        forall|x: OpV| #[trigger] put_by_seq(s, op).contains(x) <==> s.contains(x) || x == op,
        s.no_duplicates() && !s.contains(op) ==> put_by_seq(s, op).no_duplicates(),
    decreases s.len(),
{
    lemma_pushed(s, op);
    if s.len() > 0 && s.last().id.seq > op.id.seq {
        let h = s.drop_last();
        lemma_put_by_seq(h, op);
        lemma_pushed(put_by_seq(h, op), s.last());
        lemma_pushed(h, s.last());
        assert(h.push(s.last()) =~= s);
        if s.no_duplicates() && h.contains(s.last()) {
            let i: int = h.index_of(s.last());
            assert(s[i] == s[s.len() - 1]);
        }
    }
}

pub(crate) proof fn lemma_by_seq(s: Seq<OpV>)
    ensures
        forall|x: OpV| #[trigger] by_seq(s).contains(x) <==> s.contains(x),
        s.no_duplicates() ==> by_seq(s).no_duplicates(),
    decreases s.len(),
{
    if s.len() > 0 {
        let h = s.drop_last();
        lemma_by_seq(h);
        lemma_put_by_seq(by_seq(h), s.last());
        lemma_pushed(h, s.last());
        assert(h.push(s.last()) =~= s);
        if s.no_duplicates() && h.contains(s.last()) {
            let i: int = h.index_of(s.last());
            assert(s[i] == s[s.len() - 1]);
        }
    }
}

/// What is grouped is so part by part.
pub(crate) proof fn lemma_grouped_within(p: Seq<OpV>, all: Seq<OpV>)
    requires
        grouped(all),
        forall|x: OpV| #[trigger] p.contains(x) ==> all.contains(x),
    ensures
        grouped(p),
{
    assert forall|x: OpV, y: OpV| #[trigger]
        p.contains(x) && #[trigger] p.contains(y) && group_of(x) is Some && group_of(x) == group_of(
            y,
        ) implies x.tx->Some_0.count == y.tx->Some_0.count && x.tx->Some_0.count >= 1 by {
        assert(all.contains(x) && all.contains(y));
    }
}

/// Sequences of the same things, each once, are as long.
pub(crate) proof fn lemma_as_many(s: Seq<OpV>, t: Seq<OpV>)
    requires
        s.no_duplicates(),
        t.no_duplicates(),
        forall|x: OpV| #[trigger] s.contains(x) <==> t.contains(x),
    ensures
        s.len() == t.len(),
{
    s.unique_seq_to_set();
    t.unique_seq_to_set();
    assert(s.to_set() =~= t.to_set());
}

// --- figures ---

/// An op's stamps, once published, stay published.
pub(crate) proof fn lemma_absorbed(p: Seq<OpV>, op: OpV)
    requires
        p.contains(op),
    ensures
        raised(figures(p), op.stamp, spec_span(op.kind)) == figures(p),
    decreases p.len(),
{
    let h = p.drop_last();
    let x = p.last();
    lemma_raised(figures(h), x.stamp, spec_span(x.kind), op.stamp, spec_span(op.kind));
    if x != op {
        let i: int = p.index_of(op);
        assert(h[i] == op);
        lemma_absorbed(h, op);
    }
}

proof fn lemma_figures_remove(p: Seq<OpV>, i: int)
    requires
        0 <= i < p.len(),
    ensures
        figures(p) == raised(figures(p.remove(i)), p[i].stamp, spec_span(p[i].kind)),
    decreases p.len(),
{
    let h = p.drop_last();
    let x = p.last();
    if i == p.len() - 1 {
        assert(p.remove(i) =~= h);
    } else {
        lemma_figures_remove(h, i);
        assert(p.remove(i).drop_last() =~= h.remove(i));
        assert(p.remove(i).last() == x);
        lemma_raised(
            figures(h.remove(i)),
            p[i].stamp,
            spec_span(p[i].kind),
            x.stamp,
            spec_span(x.kind),
        );
    }
}

proof fn lemma_same_figures(p: Seq<OpV>, q: Seq<OpV>)
    requires
        p.no_duplicates(),
        q.no_duplicates(),
        forall|x: OpV| #[trigger] p.contains(x) <==> q.contains(x),
    ensures
        figures(p) == figures(q),
    decreases p.len(),
{
    lemma_as_many(p, q);
    if p.len() > 0 {
        let n: int = p.len() - 1;
        let x = p[n];
        assert(p.contains(x));
        let i: int = q.index_of(x);
        lemma_figures_remove(q, i);
        lemma_figures_remove(p, n);
        lemma_removed(p, n);
        lemma_removed(q, i);
        lemma_same_figures(p.remove(n), q.remove(i));
    }
}

// --- steps ---

/// An op that can apply on a replica of a run's standing takes it on to the next.
proof fn lemma_next(c: ClientId, pool: Set<OpV>, d: DocV, l: Seq<OpV>, b: OpV)
    requires
        authored_alone(pool),
        runs_in_turn(c, pool, l),
        stands_at(c, d, l),
        pool.contains(b),
        !l.contains(b),
        d.tree.ready(b),
    ensures
        runs_in_turn(c, pool, l.push(b)),
        stands_at(c, d.applied(b), l.push(b)),
        d.applied(b).tree.high_water == raised(d.tree.high_water, b.stamp, spec_span(b.kind)),
{
    reveal(stands_at);
    let e = DocV::empty(c).ran(l);
    let none = Map::<ClientId, u64>::empty();
    lemma_wet_ready(d.tree, none, b);
    lemma_wet_ready(e.tree, none, b);
    lemma_runs_push(c, pool, l, b);
    lemma_applied_figures(d, b);
    assert(l.push(b).drop_last() =~= l);
    lemma_wet_kind(d.tree, none, b.target, b.kind, b.stamp, b.id.client);
    lemma_wet_kind(e.tree, none, b.target, b.kind, b.stamp, b.id.client);
    let t = d.applied(b).tree;
    let u = e.applied(b).tree;
    let hw = raised(none, b.stamp, spec_span(b.kind));
    assert(wet(t, hw) == wet(u, hw));
    assert(wet(t, none) == wet(wet(t, hw), none));
    assert(wet(u, none) == wet(wet(u, hw), none));
}

/// What waits does not show in a standing.
proof fn lemma_buffer_aside(c: ClientId, d: DocV, e: DocV, l: Seq<OpV>)
    requires
        stands_at(c, d, l),
        e.tree == d.tree,
        e.lamport == d.lamport,
        e.zone_clocks == d.zone_clocks,
        e.seen == d.seen,
    ensures
        stands_at(c, e, l),
{
    reveal(stands_at);
}

/// An op that waits on its own and can apply does.
proof fn lemma_release(
    c: ClientId,
    pool: Set<OpV>,
    own: Set<GroupKey>,
    d: DocV,
    p: Seq<OpV>,
    l: Seq<OpV>,
    todo: Set<OpV>,
    i: int,
) -> (m: Seq<OpV>)
    requires
        authored_alone(pool),
        stands(c, pool, own, d, p, l, todo),
        0 <= i < d.buffer.len(),
        d.buffer[i].tx is None,
        d.tree.ready(d.buffer[i]),
    ensures
        stands(c, pool, own,
            (DocV { buffer: d.buffer.remove(i), ..d }).applied(d.buffer[i]),
            p,
            m,
            todo,
        ),
{
    reveal(stands);
    let b = d.buffer[i];
    let e = DocV { buffer: d.buffer.remove(i), ..d };
    let f = e.applied(b);
    let res = d.resolved;
    assert(d.buffer.contains(b));
    let o = choose|op: OpV| #[trigger] p.contains(op) && b == shown(res, op);
    assert(b == bare(o));
    assert(bare(b) == b);
    lemma_buffer_aside(c, d, e, l);
    lemma_next(c, pool, e, l, b);
    lemma_absorbed(p, o);
    lemma_removed(d.buffer, i);
    lemma_pushed(l, b);
    let m = l.push(b);
    assert(f.buffer == e.buffer && f.resolved == res);
    assert forall|op: OpV| #[trigger] p.contains(op) implies kept(f, m, todo, op) by {
        assert(kept(d, l, todo, op));
    }
    assert forall|x: OpV| #[trigger] f.buffer.contains(x) implies !m.contains(bare(x)) && waits_of(
        p,
        res,
        x,
    ) by {
        assert(d.buffer.contains(x));
        let y = choose|op: OpV| #[trigger] p.contains(op) && x == shown(res, op);
        if bare(x) == b {
            assert(y.id == o.id);
        }
    }
    assert forall|x: OpV| #[trigger] m.contains(x) implies ran_of(p, res, x) by {
        if x == b {
            assert(p.contains(o) && freed(res, o));
        }
    }
    m
}

/// A member of a settled group applies, or waits on its own.
proof fn lemma_member(
    c: ClientId,
    pool: Set<OpV>,
    own: Set<GroupKey>,
    d: DocV,
    p: Seq<OpV>,
    l: Seq<OpV>,
    todo: Set<OpV>,
    o: OpV,
) -> (m: Seq<OpV>)
    requires
        authored_alone(pool),
        stands(c, pool, own, d, p, l, todo),
        todo.contains(o),
    ensures
        stands(c, pool, own, d.with_member(o), p, m, todo.remove(o)),
{
    reveal(stands);
    let b = bare(o);
    let f = d.with_member(o);
    let res = d.resolved;
    let rest = todo.remove(o);
    assert(bare(b) == b);
    assert(p.contains(o) && freed(res, o));
    assert(d.tree.ready(o) == d.tree.ready(b));
    assert(d.applied(o) == d.applied(b));
    if d.tree.ready(o) {
        lemma_next(c, pool, d, l, b);
        lemma_absorbed(p, o);
        lemma_pushed(l, b);
        let m = l.push(b);
        assert(f.buffer == d.buffer && f.resolved == res);
        assert forall|op: OpV| #[trigger] p.contains(op) implies kept(f, m, rest, op) by {
            assert(kept(d, l, todo, op));
        }
        assert forall|x: OpV| #[trigger] f.buffer.contains(x) implies !m.contains(bare(x))
            && waits_of(p, res, x) by {
            let y = choose|op: OpV| #[trigger] p.contains(op) && x == shown(res, op);
            if bare(x) == b {
                assert(y.id == o.id);
            }
        }
        assert forall|x: OpV| #[trigger] m.contains(x) implies ran_of(p, res, x) by {
        }
        assert forall|op: OpV| #[trigger] rest.contains(op) implies !m.contains(bare(op)) by {
            if bare(op) == b {
                assert(op.id == o.id);
            }
        }
        m
    } else {
        lemma_buffer_aside(c, d, f, l);
        lemma_pushed(d.buffer, b);
        assert(f.resolved == res);
        assert forall|op: OpV| #[trigger] p.contains(op) implies kept(f, l, rest, op) by {
            assert(kept(d, l, todo, op));
        }
        assert forall|x: OpV| #[trigger] f.buffer.contains(x) implies !l.contains(bare(x))
            && waits_of(p, res, x) by {
            if x == b {
                assert(b == shown(res, o));
            }
        }
        assert forall|op: OpV| #[trigger] rest.contains(op) implies !f.buffer.contains(
            bare(op),
        ) by {
            if bare(op) == b {
                assert(op.id == o.id);
            }
        }
        l
    }
}

proof fn lemma_members_step(
    c: ClientId,
    pool: Set<OpV>,
    own: Set<GroupKey>,
    d: DocV,
    p: Seq<OpV>,
    l: Seq<OpV>,
    todo: Set<OpV>,
    ops: Seq<OpV>,
) -> (m: Seq<OpV>)
    requires
        authored_alone(pool),
        stands(c, pool, own, d, p, l, todo),
        ops.no_duplicates(),
        forall|x: OpV| #[trigger] ops.contains(x) ==> todo.contains(x),
    ensures
        stands(c, pool, own,
            d.with_members(ops),
            p,
            m,
            todo.difference(Set::new(|x: OpV| ops.contains(x))),
        ),
    decreases ops.len(),
{
    let gone = Set::new(|x: OpV| ops.contains(x));
    if ops.len() == 0 {
        assert(todo.difference(gone) =~= todo);
        l
    } else {
        let h = ops.drop_last();
        let o = ops.last();
        let before = Set::new(|x: OpV| h.contains(x));
        lemma_pushed(h, o);
        assert(h.push(o) =~= ops);
        assert(!h.contains(o)) by {
            if h.contains(o) {
                let i: int = h.index_of(o);
                assert(ops[i] == ops[ops.len() - 1]);
            }
        }
        assert forall|x: OpV| #[trigger] h.contains(x) implies todo.contains(x) by {
            assert(ops.contains(x));
        }
        assert(ops.contains(o));
        let m = lemma_members_step(c, pool, own, d, p, l, todo, h);
        let left = todo.difference(before);
        let n = lemma_member(c, pool, own, d.with_members(h), p, m, left, o);
        assert(left.remove(o) =~= todo.difference(gone));
        n
    }
}

/// As many members of an open group wait as have arrived.
proof fn lemma_waiting_members(
    c: ClientId,
    pool: Set<OpV>,
    own: Set<GroupKey>,
    d: DocV,
    p: Seq<OpV>,
    l: Seq<OpV>,
    k: GroupKey,
)
    requires
        stands(c, pool, own, d, p, l, Set::empty()),
        !d.resolved.contains(k),
    ensures
        forall|x: OpV|
            d.buffer.contains(x) && group_of(x) == Some(k) <==> #[trigger] p.contains(x)
                && group_of(x) == Some(k),
        members_of(d.buffer, k).len() == members_of(p, k).len(),
{
    reveal(stands);
    let res = d.resolved;
    lemma_members(d.buffer, k);
    lemma_members(p, k);
    assert forall|x: OpV|
        d.buffer.contains(x) && group_of(x) == Some(k) <==> #[trigger] p.contains(x) && group_of(x)
            == Some(k) by {
        if d.buffer.contains(x) && group_of(x) == Some(k) {
            let y = choose|op: OpV| #[trigger] p.contains(op) && x == shown(res, op);
        }
        if p.contains(x) && group_of(x) == Some(k) {
            assert(kept(d, l, Set::empty(), x));
            if l.contains(bare(x)) {
                let y = choose|op: OpV| #[trigger]
                    p.contains(op) && bare(x) == bare(op) && freed(res, op);
                assert(y.id == x.id);
            }
        }
    }
    lemma_as_many(members_of(d.buffer, k), members_of(p, k));
}

/// A complete group is taken out of what waits, and is settled.
proof fn lemma_take_group(
    c: ClientId,
    pool: Set<OpV>,
    own: Set<GroupKey>,
    d: DocV,
    p: Seq<OpV>,
    l: Seq<OpV>,
    i: int,
)
    requires
        stands(c, pool, own, d, p, l, Set::empty()),
        0 <= i < d.buffer.len(),
        complete_at(d.buffer, i),
    ensures
        ({
            let k = group_of(d.buffer[i])->Some_0;
            let todo = Set::new(|x: OpV| members_of(d.buffer, k).contains(x));
            stands(c, pool, own,
                (DocV { buffer: others_of(d.buffer, k), ..d }).with_resolved(k),
                p,
                l,
                todo,
            )
        }),
{
    let b = d.buffer[i];
    let k = group_of(b)->Some_0;
    let res = d.resolved;
    let all = res.insert(k);
    let others = others_of(d.buffer, k);
    let todo = Set::new(|x: OpV| members_of(d.buffer, k).contains(x));
    assert(d.buffer.contains(b));
    assert(!res.contains(k)) by {
        reveal(stands);
        let y = choose|op: OpV| #[trigger] p.contains(op) && b == shown(res, op);
    }
    lemma_waiting_members(c, pool, own, d, p, l, k);
    lemma_members(d.buffer, k);
    lemma_others(d.buffer, k);
    let e = DocV { buffer: others, ..d };
    let f = e.with_resolved(k);
    reveal(stands);
    assert(untagged(others, all) =~= others) by {
        assert forall|j: int| 0 <= j < others.len() implies untagged(others, all)[j]
            == others[j] by {
            let x = others[j];
            assert(others.contains(x));
            assert(d.buffer.contains(x));
            let y = choose|op: OpV| #[trigger] p.contains(op) && x == shown(res, op);
        }
    }
    assert(f.buffer == others && f.resolved == all);
    lemma_buffer_aside(c, d, f, l);
    assert forall|op: OpV| #[trigger] p.contains(op) implies kept(f, l, todo, op) by {
        assert(kept(d, l, Set::empty(), op));
        if group_of(op) != Some(k) {
            assert(shown(all, op) == shown(res, op));
            if d.buffer.contains(shown(res, op)) {
                let y = shown(res, op);
                assert(group_of(y) != Some(k));
                assert(others.contains(y));
            }
        } else {
            assert(d.buffer.contains(op));
            assert(members_of(d.buffer, k).contains(op));
        }
    }
    assert forall|x: OpV| #[trigger] f.buffer.contains(x) implies !l.contains(bare(x)) && waits_of(
        p,
        all,
        x,
    ) by {
        assert(others.contains(x));
        assert(d.buffer.contains(x));
        let y = choose|op: OpV| #[trigger] p.contains(op) && x == shown(res, op);
        assert(group_of(y) != Some(k)) by {
            if group_of(y) == Some(k) {
                assert(x == y);
            }
        }
        assert(x == shown(all, y));
    }
    assert forall|x: OpV| #[trigger] l.contains(x) implies ran_of(p, all, x) by {
        let y = choose|op: OpV| #[trigger] p.contains(op) && x == bare(op) && freed(res, op);
        assert(freed(all, y));
    }
    assert forall|op: OpV| #[trigger] todo.contains(op) implies p.contains(op) && freed(all, op)
        && !l.contains(bare(op)) && !f.buffer.contains(bare(op)) by {
        assert(members_of(d.buffer, k).contains(op));
        assert(d.buffer.contains(op));
        assert(p.contains(op));
        if others.contains(bare(op)) {
            assert(d.buffer.contains(bare(op)));
            let y = choose|o: OpV| #[trigger] p.contains(o) && bare(op) == shown(res, o);
            assert(y.id == op.id);
        }
    }
    assert(settled(p, k)) by {
        assert(p.contains(b));
        assert(complete(d.buffer, k, b.tx->Some_0.count));
    }
    assert forall|op: OpV| #[trigger] p.contains(op) && !freed(all, op) implies members_of(
        p,
        group_of(op)->Some_0,
    ).len() <= op.tx->Some_0.count by {
        assert(!freed(res, op));
    }
}

// --- draining ---

proof fn lemma_none_ready(d: DocV, i: nat)
    ensures
        match d.first_ready(i) {
            Some(j) => i <= j < d.buffer.len() && d.buffer[j as int].tx is None && d.tree.ready(
                d.buffer[j as int],
            ),
            None => forall|j: int|
                i <= j < d.buffer.len() && (#[trigger] d.buffer[j]).tx is None ==> !d.tree.ready(
                    d.buffer[j],
                ),
        },
    decreases d.buffer.len() - i,
{
    if i < d.buffer.len() && !(d.buffer[i as int].tx is None && d.tree.ready(
        d.buffer[i as int],
    )) {
        lemma_none_ready(d, i + 1);
    }
}

proof fn lemma_none_complete(ops: Seq<OpV>, i: nat)
    requires
        first_complete(ops, i) is None,
    ensures
        forall|j: int| i <= j < ops.len() ==> !complete_at(ops, j),
    decreases ops.len() - i,
{
    if i < ops.len() {
        lemma_none_complete(ops, i + 1);
    }
}

proof fn lemma_drain_plain(
    c: ClientId,
    pool: Set<OpV>,
    own: Set<GroupKey>,
    d: DocV,
    p: Seq<OpV>,
    l: Seq<OpV>,
) -> (m: Seq<OpV>)
    requires
        authored_alone(pool),
        stands(c, pool, own, d, p, l, Set::empty()),
    ensures
        stands(c, pool, own, d.drained_plain(), p, m, Set::empty()),
        d.drained_plain().first_ready(0) is None,
    decreases d.buffer.len(),
{
    lemma_none_ready(d, 0);
    match d.first_ready(0) {
        Some(i) => {
            let m = lemma_release(c, pool, own, d, p, l, Set::empty(), i as int);
            let e = (DocV { buffer: d.buffer.remove(i as int), ..d }).applied(
                d.buffer[i as int],
            );
            assert(e.buffer.len() < d.buffer.len());
            lemma_drain_plain(c, pool, own, e, p, m)
        },
        None => l,
    }
}

pub(crate) proof fn lemma_drain(
    c: ClientId,
    pool: Set<OpV>,
    own: Set<GroupKey>,
    d: DocV,
    p: Seq<OpV>,
    l: Seq<OpV>,
) -> (m: Seq<OpV>)
    requires
        authored_alone(pool),
        stands(c, pool, own, d, p, l, Set::empty()),
    ensures
        stands(c, pool, own, d.drained(), p, m, Set::empty()),
        quiet(d.drained()),
    decreases tagged(d.buffer),
{
    reveal(DocV::drained);
    let e = d.drained_plain();
    let m = lemma_drain_plain(c, pool, own, d, p, l);
    lemma_plain_tagged(d);
    lemma_first_complete(e.buffer, 0);
    match first_complete(e.buffer, 0) {
        Some(i) => {
            let k = group_of(e.buffer[i as int])->Some_0;
            lemma_commit_tagged(e, i as int);
            lemma_take_group(c, pool, own, e, p, m, i as int);
            let ms = members_of(e.buffer, k);
            let todo = Set::new(|x: OpV| ms.contains(x));
            assert(e.buffer.no_duplicates()) by {
                reveal(stands);
            }
            lemma_members(e.buffer, k);
            lemma_by_seq(ms);
            let f = (DocV { buffer: others_of(e.buffer, k), ..e }).with_resolved(k);
            let n = lemma_members_step(c, pool, own, f, p, m, todo, by_seq(ms));
            assert(todo.difference(Set::new(|x: OpV| by_seq(ms).contains(x))) =~= Set::empty());
            lemma_drain(c, pool, own, e.committed(k), p, n)
        },
        None => {
            lemma_none_ready(e, 0);
            lemma_none_complete(e.buffer, 0);
            reveal(quiet);
            m
        },
    }
}

// --- arrivals ---

/// A new op's arrival.
proof fn lemma_arrived(p: Seq<OpV>, o: OpV, k: GroupKey)
    ensures
        members_of(p.push(o), k) == if group_of(o) == Some(k) {
            members_of(p, k).push(o)
        } else {
            members_of(p, k)
        },
        figures(p.push(o)) == raised(figures(p), o.stamp, spec_span(o.kind)),
{
    assert(p.push(o).drop_last() =~= p);
}

/// What a new op leaves as it was.
proof fn lemma_still(
    c: ClientId,
    pool: Set<OpV>,
    own: Set<GroupKey>,
    d: DocV,
    p: Seq<OpV>,
    l: Seq<OpV>,
    o: OpV,
)
    requires
        stands(c, pool, own, d, p, l, Set::empty()),
        quiet(d) || group_of(o) is None,
        grouped(p.push(o)),
        pool.contains(bare(o)),
        forall|x: OpV| #[trigger] p.contains(x) ==> x.id != o.id,
    ensures
        p.push(o).no_duplicates(),
        by_id(p.push(o)),
        !l.contains(bare(o)),
        !d.buffer.contains(shown(d.resolved, o)),
        forall|x: OpV| #[trigger] p.push(o).contains(x) <==> p.contains(x) || x == o,
        forall|k: GroupKey| #[trigger]
            d.resolved.contains(k) ==> own.contains(k) || settled(p.push(o), k),
        forall|op: OpV| #[trigger]
            p.push(o).contains(op) && !freed(d.resolved, op) ==> members_of(
                p.push(o),
                group_of(op)->Some_0,
            ).len() <= op.tx->Some_0.count,
{
    reveal(stands);
    let res = d.resolved;
    let n = p.push(o);
    lemma_pushed(p, o);
    if l.contains(bare(o)) {
        let y = choose|op: OpV| #[trigger] p.contains(op) && bare(o) == bare(op) && freed(res, op);
        assert(y.id == o.id);
    }
    if d.buffer.contains(shown(res, o)) {
        let y = choose|op: OpV| #[trigger] p.contains(op) && shown(res, o) == shown(res, op);
        assert(y.id == o.id);
    }
    assert forall|k: GroupKey| #[trigger]
        d.resolved.contains(k) && !own.contains(k) implies settled(n, k) by {
        lemma_arrived(p, o, k);
        let y = choose|op: OpV| #[trigger]
            p.contains(op) && group_of(op) == Some(k) && members_of(p, k).len()
                >= op.tx->Some_0.count;
        assert(n.contains(y));
    }
    assert forall|op: OpV| #[trigger] n.contains(op) && !freed(res, op) implies members_of(
        n,
        group_of(op)->Some_0,
    ).len() <= op.tx->Some_0.count by {
        let k = group_of(op)->Some_0;
        lemma_arrived(p, o, k);
        if group_of(o) == Some(k) {
            assert(n.contains(o));
            assert(op.tx->Some_0.count == o.tx->Some_0.count && o.tx->Some_0.count >= 1);
            if members_of(p, k).len() > 0 {
                lemma_members(p, k);
                let y = members_of(p, k)[0];
                assert(members_of(p, k).contains(y));
                assert(p.contains(y));
                assert(n.contains(y));
                lemma_grouped_within(p, n);
                lemma_short(c, pool, own, d, p, l, y);
            }
        } else {
            assert(p.contains(op));
        }
    }
}

/// A group that is still open has fewer members than they declare.
proof fn lemma_short(
    c: ClientId,
    pool: Set<OpV>,
    own: Set<GroupKey>,
    d: DocV,
    p: Seq<OpV>,
    l: Seq<OpV>,
    y: OpV,
)
    requires
        stands(c, pool, own, d, p, l, Set::empty()),
        quiet(d),
        grouped(p),
        p.contains(y),
        !freed(d.resolved, y),
    ensures
        members_of(p, group_of(y)->Some_0).len() < y.tx->Some_0.count,
{
    let k = group_of(y)->Some_0;
    lemma_waiting_members(c, pool, own, d, p, l, k);
    assert(d.buffer.contains(y));
    let i: int = d.buffer.index_of(y);
    assert(!complete_at(d.buffer, i)) by {
        reveal(quiet);
    }
    lemma_members(d.buffer, k);
    let ms = members_of(d.buffer, k);
    assert(all_declare(ms, y.tx->Some_0.count)) by {
        assert forall|j: int| 0 <= j < ms.len() implies (#[trigger] ms[j]).tx->Some_0.count
            == y.tx->Some_0.count by {
            assert(ms.contains(ms[j]));
            assert(p.contains(ms[j]));
        }
    }
    assert(members_of(p, k).len() <= y.tx->Some_0.count) by {
        reveal(stands);
    }
}

/// An op that arrives and cannot apply waits.
proof fn lemma_wait(
    c: ClientId,
    pool: Set<OpV>,
    own: Set<GroupKey>,
    d: DocV,
    p: Seq<OpV>,
    l: Seq<OpV>,
    o: OpV,
)
    requires
        stands(c, pool, own, d, p, l, Set::empty()),
        quiet(d),
        grouped(p.push(o)),
        pool.contains(bare(o)),
        forall|x: OpV| #[trigger] p.contains(x) ==> x.id != o.id,
    ensures
        stands(c, pool, own, d.held(shown(d.resolved, o)), p.push(o), l, Set::empty()),
{
    let res = d.resolved;
    let b = shown(res, o);
    let n = p.push(o);
    let f = d.held(b);
    lemma_still(c, pool, own, d, p, l, o);
    reveal(stands);
    lemma_record(d.tree, b.stamp, spec_span(b.kind));
    lemma_arrived(p, o, arbitrary());
    assert(stands_at(c, f, l)) by {
        reveal(stands_at);
    }
    lemma_pushed(d.buffer, b);
    assert forall|op: OpV| #[trigger] n.contains(op) implies kept(f, l, Set::empty(), op) by {
        if p.contains(op) {
            assert(kept(d, l, Set::empty(), op));
        }
    }
    assert forall|x: OpV| #[trigger] f.buffer.contains(x) implies !l.contains(bare(x)) && waits_of(
        n,
        res,
        x,
    ) by {
        if x == b {
            assert(n.contains(o));
        } else {
            let y = choose|op: OpV| #[trigger] p.contains(op) && x == shown(res, op);
            assert(n.contains(y));
        }
    }
    assert forall|x: OpV| #[trigger] l.contains(x) implies ran_of(n, res, x) by {
        let y = choose|op: OpV| #[trigger] p.contains(op) && x == bare(op) && freed(res, op);
        assert(n.contains(y));
    }
}

/// An op that arrives on its own and can apply does.
pub(crate) proof fn lemma_enter(
    c: ClientId,
    pool: Set<OpV>,
    own: Set<GroupKey>,
    d: DocV,
    p: Seq<OpV>,
    l: Seq<OpV>,
    o: OpV,
) -> (m: Seq<OpV>)
    requires
        authored_alone(pool),
        stands(c, pool, own, d, p, l, Set::empty()),
        quiet(d) || group_of(o) is None,
        grouped(p.push(o)),
        pool.contains(bare(o)),
        forall|x: OpV| #[trigger] p.contains(x) ==> x.id != o.id,
        freed(d.resolved, o),
        d.tree.ready(bare(o)),
    ensures
        stands(c, pool, own, d.applied(bare(o)), p.push(o), m, Set::empty()),
{
    let res = d.resolved;
    let b = bare(o);
    let n = p.push(o);
    let f = d.applied(b);
    lemma_still(c, pool, own, d, p, l, o);
    reveal(stands);
    lemma_next(c, pool, d, l, b);
    lemma_arrived(p, o, arbitrary());
    lemma_pushed(l, b);
    let m = l.push(b);
    assert(f.buffer == d.buffer && f.resolved == res);
    assert(bare(b) == b);
    assert forall|op: OpV| #[trigger] n.contains(op) implies kept(f, m, Set::empty(), op) by {
        if p.contains(op) {
            assert(kept(d, l, Set::empty(), op));
        }
    }
    assert forall|x: OpV| #[trigger] f.buffer.contains(x) implies !m.contains(bare(x)) && waits_of(
        n,
        res,
        x,
    ) by {
        let y = choose|op: OpV| #[trigger] p.contains(op) && x == shown(res, op);
        assert(n.contains(y));
        if bare(x) == b {
            assert(y.id == o.id);
        }
    }
    assert forall|x: OpV| #[trigger] m.contains(x) implies ran_of(n, res, x) by {
        if x == b {
            assert(n.contains(o));
        } else {
            let y = choose|op: OpV| #[trigger] p.contains(op) && x == bare(op) && freed(res, op);
            assert(n.contains(y));
        }
    }
    m
}

/// A replica has seen just what it applied.
pub(crate) proof fn lemma_seen(c: ClientId, l: Seq<OpV>, id: OpId)
    ensures
        DocV::empty(c).ran(l).seen.contains(id) <==> exists|i: int|
            0 <= i < l.len() && (#[trigger] l[i]).id == id,
    decreases l.len(),
{
    if l.len() > 0 {
        let h = l.drop_last();
        lemma_seen(c, h, id);
        if exists|i: int| 0 <= i < h.len() && (#[trigger] h[i]).id == id {
            let i = choose|i: int| 0 <= i < h.len() && (#[trigger] h[i]).id == id;
            assert(l[i].id == id);
        }
        if exists|i: int| 0 <= i < l.len() && (#[trigger] l[i]).id == id {
            let i = choose|i: int| 0 <= i < l.len() && (#[trigger] l[i]).id == id;
            if i < h.len() {
                assert(h[i].id == id);
            }
        }
        assert(l[l.len() - 1] == l.last());
    }
}

/// A replica has just the ops that arrived.
pub(crate) proof fn lemma_has(
    c: ClientId,
    pool: Set<OpV>,
    own: Set<GroupKey>,
    d: DocV,
    p: Seq<OpV>,
    l: Seq<OpV>,
    id: OpId,
)
    requires
        stands(c, pool, own, d, p, l, Set::empty()),
    ensures
        d.has_op(id) ==> exists|x: OpV| #[trigger] p.contains(x) && x.id == id,
        d.seen.contains(id) ==> !holds_op(d.buffer, id),
        holds_op(d.buffer, id) ==> (op_at(d.buffer, id) matches Some(b) && d.buffer.contains(b)
            && b.id == id),
{
    reveal(stands);
    let res = d.resolved;
    lemma_seen(c, l, id);
    assert(d.seen == DocV::empty(c).ran(l).seen) by {
        reveal(stands_at);
    }
    lemma_op_at(d.buffer, id);
    if d.seen.contains(id) {
        let i = choose|i: int| 0 <= i < l.len() && (#[trigger] l[i]).id == id;
        assert(l.contains(l[i]));
        let y = choose|op: OpV| #[trigger]
            p.contains(op) && l[i] == bare(op) && freed(res, op);
        assert(p.contains(y) && y.id == id);
        if holds_op(d.buffer, id) {
            let j = choose|j: int| 0 <= j < d.buffer.len() && (#[trigger] d.buffer[j]).id == id;
            let b = d.buffer[j];
            assert(d.buffer.contains(b));
            let z = choose|op: OpV| #[trigger] p.contains(op) && b == shown(res, op);
            assert(z.id == id);
            assert(bare(b) == l[i]);
        }
    }
    if holds_op(d.buffer, id) {
        let j = choose|j: int| 0 <= j < d.buffer.len() && (#[trigger] d.buffer[j]).id == id;
        assert(d.buffer.contains(d.buffer[j]));
        let z = choose|op: OpV| #[trigger] p.contains(op) && d.buffer[j] == shown(res, op);
        assert(p.contains(z) && z.id == id);
    }
}

proof fn lemma_op_at(ops: Seq<OpV>, id: OpId)
    ensures
        match op_at(ops, id) {
            Some(b) => ops.contains(b) && b.id == id && holds_op(ops, id),
            None => !holds_op(ops, id),
        },
    decreases ops.len(),
{
    if ops.len() > 0 {
        let t = ops.skip(1);
        assert(ops[0] == ops.first());
        assert(ops.contains(ops[0]));
        lemma_op_at(t, id);
        if ops[0].id != id {
            if holds_op(ops, id) {
                let i = choose|i: int| 0 <= i < ops.len() && (#[trigger] ops[i]).id == id;
                assert(t[i - 1].id == id);
            }
            if let Some(b) = op_at(t, id) {
                let i: int = t.index_of(b);
                assert(ops[i + 1] == b);
            }
        }
    }
}

/// An op arrives, or arrives once more.
pub(crate) proof fn lemma_arrives(
    c: ClientId,
    pool: Set<OpV>,
    own: Set<GroupKey>,
    d: DocV,
    p: Seq<OpV>,
    l: Seq<OpV>,
    o: OpV,
) -> (r: (Seq<OpV>, Seq<OpV>))
    requires
        authored_alone(pool),
        stands(c, pool, own, d, p, l, Set::empty()),
        quiet(d),
        grouped(p.push(o)),
        by_id(p.push(o)),
        pool.contains(bare(o)),
    ensures
        stands(c, pool, own, d.with_op(o), r.0, r.1, Set::empty()),
        quiet(d.with_op(o)),
        forall|x: OpV| #[trigger] r.0.contains(x) <==> p.contains(x) || x == o && admissible(o),
{
    let res = d.resolved;
    lemma_pushed(p, o);
    if !admissible(o) {
        (p, l)
    } else if p.contains(o) {
        lemma_repeat(c, pool, own, d, p, l, o);
        (p, l)
    } else {
        assert forall|x: OpV| #[trigger] p.contains(x) implies x.id != o.id by {
            assert(p.push(o).contains(x) && p.push(o).contains(o));
        }
        lemma_has(c, pool, own, d, p, l, o.id);
        let b = shown(res, o);
        assert(d.unstrayed(o) == b);
        let n = p.push(o);
        if b.tx is Some {
            lemma_wait(c, pool, own, d, p, l, o);
            let m = lemma_drain(c, pool, own, d.held(b), n, l);
            (n, m)
        } else if !d.tree.ready(b) {
            lemma_wait(c, pool, own, d, p, l, o);
            lemma_stays_quiet(d, b);
            (n, l)
        } else {
            assert(b == bare(o) && freed(res, o));
            let m = lemma_enter(c, pool, own, d, p, l, o);
            let k = lemma_drain(c, pool, own, d.applied(b), n, m);
            (n, k)
        }
    }
}

/// One more op that cannot apply on its own makes nothing else apply.
proof fn lemma_stays_quiet(d: DocV, b: OpV)
    requires
        quiet(d),
        b.tx is None,
        !d.tree.ready(b),
    ensures
        quiet(d.held(b)),
{
    reveal(quiet);
    let f = d.held(b);
    lemma_record(d.tree, b.stamp, spec_span(b.kind));
    assert forall|i: int|
        0 <= i < f.buffer.len() && (#[trigger] f.buffer[i]).tx is None implies !f.tree.ready(
        f.buffer[i],
    ) by {
        lemma_wet_ready(d.tree, f.tree.high_water, f.buffer[i]);
        if i < d.buffer.len() {
            assert(f.buffer[i] == d.buffer[i]);
        }
    }
    assert forall|i: int| 0 <= i < f.buffer.len() implies !complete_at(f.buffer, i) by {
        if i < d.buffer.len() {
            assert(f.buffer[i] == d.buffer[i]);
            assert(!complete_at(d.buffer, i));
            if let Some(k) = group_of(d.buffer[i]) {
                assert(f.buffer.drop_last() =~= d.buffer);
            }
        }
    }
}

/// A repeat changes nothing.
pub(crate) proof fn lemma_repeat(
    c: ClientId,
    pool: Set<OpV>,
    own: Set<GroupKey>,
    d: DocV,
    p: Seq<OpV>,
    l: Seq<OpV>,
    o: OpV,
)
    requires
        stands(c, pool, own, d, p, l, Set::empty()),
        p.contains(o),
    ensures
        d.with_op(o) == d,
{
    let res = d.resolved;
    lemma_has(c, pool, own, d, p, l, o.id);
    lemma_seen(c, l, o.id);
    reveal(stands);
    assert(d.seen == DocV::empty(c).ran(l).seen) by {
        reveal(stands_at);
    }
    assert(kept(d, l, Set::empty(), o));
    if l.contains(bare(o)) {
        assert(l[l.index_of(bare(o))].id == o.id);
    }
    if d.buffer.contains(shown(res, o)) {
        assert(d.buffer[d.buffer.index_of(shown(res, o))].id == o.id);
    }
    assert(d.has_op(o.id));
    if holds_op(d.buffer, o.id) {
        let b = op_at(d.buffer, o.id)->Some_0;
        let z = choose|op: OpV| #[trigger] p.contains(op) && b == shown(res, op);
        assert(z.id == o.id);
        assert(b == shown(res, o));
    }
}

// --- the law ---

/// A new replica is where no ops leave it.
pub(crate) proof fn lemma_start(c: ClientId, pool: Set<OpV>, own: Set<GroupKey>)
    ensures
        stands(c, pool, own, DocV::empty(c), Seq::empty(), Seq::empty(), Set::empty()),
        quiet(DocV::empty(c)),
{
    reveal(stands);
    reveal(stands_at);
    reveal(quiet);
    lemma_runs_none(c, pool);
    assert(DocV::empty(c).ran(Seq::empty()) == DocV::empty(c));
}

/// Where ops leave a new replica.
pub(crate) proof fn lemma_deliver(c: ClientId, all: Seq<OpV>, ops: Seq<OpV>) -> (r: (
    Seq<OpV>,
    Seq<OpV>,
))
    requires
        authored(all),
        forall|x: OpV| #[trigger] ops.contains(x) ==> all.contains(x),
    ensures
        stands(
            c,
            bares(all),
            Set::empty(),
            with_ops(DocV::empty(c), ops),
            r.0,
            r.1,
            Set::empty(),
        ),
        quiet(with_ops(DocV::empty(c), ops)),
        forall|x: OpV| #[trigger] r.0.contains(x) <==> ops.contains(x) && admissible(x),
    decreases ops.len(),
{
    if ops.len() == 0 {
        lemma_start(c, bares(all), Set::empty());
        (Seq::empty(), Seq::empty())
    } else {
        let h = ops.drop_last();
        let o = ops.last();
        lemma_pushed(h, o);
        assert(h.push(o) =~= ops);
        assert forall|x: OpV| #[trigger] h.contains(x) implies all.contains(x) by {
            assert(ops.contains(x));
        }
        assert(ops.contains(o));
        let (p, l) = lemma_deliver(c, all, h);
        lemma_pushed(p, o);
        assert forall|x: OpV| #[trigger] p.push(o).contains(x) implies all.contains(x) by {
            if p.contains(x) {
                assert(h.contains(x));
            }
        }
        assert(all.contains(o) && bare(o) == bare(o));
        lemma_arrives(c, bares(all), Set::empty(), with_ops(DocV::empty(c), h), p, l, o)
    }
}

/// A group is settled by which ops arrived.
proof fn lemma_settled(
    c: ClientId,
    pool: Set<OpV>,
    own: Set<GroupKey>,
    d: DocV,
    p: Seq<OpV>,
    l: Seq<OpV>,
    k: GroupKey,
)
    requires
        stands(c, pool, own, d, p, l, Set::empty()),
        quiet(d),
        grouped(p),
    ensures
        settled(p, k) ==> d.resolved.contains(k),
        d.resolved.contains(k) ==> own.contains(k) || settled(p, k),
{
    if settled(p, k) && !d.resolved.contains(k) {
        let y = choose|op: OpV| #[trigger]
            p.contains(op) && group_of(op) == Some(k) && members_of(p, k).len()
                >= op.tx->Some_0.count;
        lemma_short(c, pool, own, d, p, l, y);
    }
    reveal(stands);
}

proof fn lemma_settled_alike(p: Seq<OpV>, q: Seq<OpV>, k: GroupKey)
    requires
        p.no_duplicates(),
        q.no_duplicates(),
        forall|x: OpV| #[trigger] p.contains(x) <==> q.contains(x),
        settled(p, k),
    ensures
        settled(q, k),
{
    lemma_members(p, k);
    lemma_members(q, k);
    lemma_as_many(members_of(p, k), members_of(q, k));
    let y = choose|op: OpV| #[trigger]
        p.contains(op) && group_of(op) == Some(k) && members_of(p, k).len() >= op.tx->Some_0.count;
    assert(q.contains(y));
}

/// Nothing more that waits for no group can apply.
proof fn lemma_exhausted(
    c: ClientId,
    pool: Set<OpV>,
    own: Set<GroupKey>,
    d: DocV,
    p: Seq<OpV>,
    l: Seq<OpV>,
    free: Set<OpV>,
)
    requires
        stands(c, pool, own, d, p, l, Set::empty()),
        quiet(d),
        forall|b: OpV| #[trigger] free.contains(b) <==> ran_of(p, d.resolved, b),
    ensures
        exhausts(c, l, free),
        forall|b: OpV| #[trigger] l.contains(b) ==> free.contains(b),
{
    reveal(stands);
    let res = d.resolved;
    assert forall|a: OpV| #[trigger] free.contains(a) && !l.contains(a) implies !can_follow(
        c,
        l,
        a,
    ) by {
        let y = choose|op: OpV| #[trigger] p.contains(op) && a == bare(op) && freed(res, op);
        assert(kept(d, l, Set::empty(), y));
        assert(d.buffer.contains(a));
        let i: int = d.buffer.index_of(a);
        assert(!d.tree.ready(a)) by {
            reveal(quiet);
            assert(d.buffer[i].tx is None);
        }
        reveal(stands_at);
        reveal(can_follow);
        lemma_wet_ready(d.tree, Map::empty(), a);
        lemma_wet_ready(DocV::empty(c).ran(l).tree, Map::empty(), a);
    }
}

/// What waits on one replica waits on the other.
proof fn lemma_waits_alike(
    c: ClientId,
    pool: Set<OpV>,
    own: Set<GroupKey>,
    d: DocV,
    p: Seq<OpV>,
    l: Seq<OpV>,
    e: DocV,
    q: Seq<OpV>,
    m: Seq<OpV>,
    b: OpV,
)
    requires
        stands(c, pool, own, d, p, l, Set::empty()),
        stands(c, pool, own, e, q, m, Set::empty()),
        forall|x: OpV| #[trigger] p.contains(x) <==> q.contains(x),
        forall|x: OpV| #[trigger] l.contains(x) <==> m.contains(x),
        d.resolved == e.resolved,
        d.buffer.contains(b),
    ensures
        e.buffer.contains(b),
{
    reveal(stands);
    let y = choose|op: OpV| #[trigger] p.contains(op) && b == shown(d.resolved, op);
    assert(q.contains(y));
    assert(kept(e, m, Set::empty(), y));
    assert(bare(b) == bare(y));
}

/// Of what waits, each id has one op.
pub(crate) proof fn lemma_waits_once(
    c: ClientId,
    pool: Set<OpV>,
    own: Set<GroupKey>,
    d: DocV,
    p: Seq<OpV>,
    l: Seq<OpV>,
    a: OpV,
    b: OpV,
)
    requires
        stands(c, pool, own, d, p, l, Set::empty()),
        d.buffer.contains(a),
        d.buffer.contains(b),
        a.id == b.id,
    ensures
        a == b,
{
    reveal(stands);
    let x = choose|op: OpV| #[trigger] p.contains(op) && a == shown(d.resolved, op);
    let y = choose|op: OpV| #[trigger] p.contains(op) && b == shown(d.resolved, op);
    assert(x.id == y.id);
}

/// What a gist and the figures tell, a seated state spells.
proof fn lemma_gist_written(t: TreeV, u: TreeV)
    requires
        t.gist() == u.gist(),
        t.high_water == u.high_water,
        seated(t.plain()),
        seated(u.plain()),
    ensures
        t.written() == u.written(),
        forall|n: ElementId| #[trigger]
            t.placements.dom().contains(n) <==> u.placements.dom().contains(n),
        forall|n: ElementId, at: Placement|
            t.placements.dom().contains(n) ==> (#[trigger] t.placements[n].contains(at)
                <==> u.placements[n].contains(at)),
{
    reveal(seated);
    let g = t.gist().tree;
    let p = t.plain();
    let q = u.plain();
    let a = t.written();
    let b = u.written();
    lemma_gist_doms(t);
    lemma_gist_doms(u);
    assert(p.placements == t.placements && q.placements == u.placements);
    assert(p.placement_index == q.placement_index) by {
        assert(p.placement_index == g.placement_index);
        assert(q.placement_index == u.gist().tree.placement_index);
    }
    assert(t.moves == u.moves) by {
        assert(t.moves.base == g.moves.base && u.moves.base == u.gist().tree.moves.base);
        assert(t.moves.log == t.gist().log && u.moves.log == u.gist().log);
    }
    assert forall|n: ElementId| #[trigger]
        t.placements.dom().contains(n) <==> u.placements.dom().contains(n) by {
        if t.placements.dom().contains(n) {
            let at = p.placements[n][0];
            assert(p.placements[n].contains(at));
            assert(q.placement_index.dom().contains(at));
        }
        if u.placements.dom().contains(n) {
            let at = q.placements[n][0];
            assert(q.placements[n].contains(at));
            assert(p.placement_index.dom().contains(at));
        }
    }
    assert(t.placements.dom() =~= u.placements.dom());
    assert forall|n: ElementId, at: Placement| t.placements.dom().contains(n) implies (
    #[trigger] t.placements[n].contains(at) <==> u.placements[n].contains(at)) by {
        assert(p.placements[n].contains(at) <==> q.placements[n].contains(at));
    }
    assert(a.parents =~= b.parents) by {
        assert forall|x: ElementId|
            t.parents.dom().contains(x) == u.parents.dom().contains(x) && (t.parents.dom().contains(
                x,
            ) ==> #[trigger] t.parents[x] == u.parents[x]) by {
            assert(p.parents == t.parents && q.parents == u.parents);
            if t.placements.dom().contains(x) {
                assert(p.moves == t.moves && q.moves == u.moves);
                assert(p.placements.dom().contains(x) && q.placements.dom().contains(x));
            } else {
                assert(g.parents.dom().contains(x) == t.parents.dom().contains(x));
                assert(u.gist().tree.parents.dom().contains(x) == u.parents.dom().contains(x));
                if t.parents.dom().contains(x) {
                    assert(g.parents[x] == t.parents[x]);
                    assert(u.gist().tree.parents[x] == u.parents[x]);
                }
            }
        }
        assert forall|x: ElementId| #[trigger]
            t.parents.dom().contains(x) == u.parents.dom().contains(x) by {
            let y = t.parents[x];
        }
    }
    assert forall|n: ElementId| #[trigger] t.placements.dom().contains(n) implies is_spelled(
        t,
        t.placements[n],
    ) == is_spelled(u, u.placements[n]) && t.placements[n].to_set() == u.placements[n].to_set() by {
        lemma_same_places(t, u, t.placements[n], u.placements[n]);
    }
    assert(a.placements =~= b.placements);
    assert forall|n: ElementId, at: Placement| #[trigger] t.spells(n, at) == u.spells(n, at) by {}
    assert(a.placement_index =~= b.placement_index) by {
        assert forall|at: Placement|
            a.placement_index.dom().contains(at) == b.placement_index.dom().contains(at) && (
            a.placement_index.dom().contains(at) ==> #[trigger] a.placement_index[at]
                == b.placement_index[at]) by {
            if exists|n: ElementId| #[trigger] t.spells(n, at) {
                let m = choose|n: ElementId| #[trigger] t.spells(n, at);
                assert(u.spells(m, at));
                let n = choose|n: ElementId| #[trigger] u.spells(n, at);
                assert(p.placements[m].contains(at) && q.placements[n].contains(at));
            }
            if exists|n: ElementId| #[trigger] u.spells(n, at) {
                let m = choose|n: ElementId| #[trigger] u.spells(n, at);
                assert(t.spells(m, at));
            }
        }
        assert forall|at: Placement| #[trigger]
            a.placement_index.dom().contains(at) == b.placement_index.dom().contains(at) by {
            let y = a.placement_index[at];
        }
    }
    assert(a.maps =~= b.maps) by {
        assert(a.maps == g.maps && b.maps == u.gist().tree.maps);
    }
    assert(a.lists == g.lists && b.lists == u.gist().tree.lists);
    assert(a.texts == g.texts && b.texts == u.gist().tree.texts);
    assert(a.counters == g.counters && b.counters == u.gist().tree.counters);
    assert(a.xml_elements == g.xml_elements && b.xml_elements == u.gist().tree.xml_elements);
    assert(a.xml_fragments == g.xml_fragments && b.xml_fragments == u.gist().tree.xml_fragments);
    assert(a.ranged == g.ranged && b.ranged == u.gist().tree.ranged);
    assert(a.acl == g.acl && b.acl == u.gist().tree.acl);
}

/// Placements that are the same ones are spelled out alike.
proof fn lemma_same_places(t: TreeV, u: TreeV, a: Seq<Placement>, b: Seq<Placement>)
    requires
        t.gist() == u.gist(),
        a.no_duplicates(),
        b.no_duplicates(),
        forall|at: Placement| #[trigger] a.contains(at) <==> b.contains(at),
    ensures
        is_spelled(t, a) == is_spelled(u, b),
        a.to_set() == b.to_set(),
{
    lemma_gist_doms(t);
    lemma_gist_doms(u);
    a.unique_seq_to_set();
    b.unique_seq_to_set();
    assert(a.to_set() =~= b.to_set());
    assert forall|at: Placement| #[trigger] t.is_tombstoned(at) == u.is_tombstoned(at) by {
        if t.lists.dom().contains(at.list) {
            let l = as_written(t.lists[at.list]);
            assert(l.places == t.lists[at.list].places && l.places == u.lists[at.list].places);
            assert(l.items.dom() =~= t.lists[at.list].items.dom());
            assert(l.items.dom() =~= u.lists[at.list].items.dom());
            assert(l == as_written(u.lists[at.list]));
        }
    }
    if t.any_tombstoned(a) {
        let i = choose|i: int| 0 <= i < a.len() && t.is_tombstoned(#[trigger] a[i]);
        assert(a.contains(a[i]));
        assert(u.is_tombstoned(b[b.index_of(a[i])]));
    }
    if u.any_tombstoned(b) {
        let i = choose|i: int| 0 <= i < b.len() && u.is_tombstoned(#[trigger] b[i]);
        assert(b.contains(b[i]));
        assert(a.contains(b[i]));
        assert(t.is_tombstoned(a[a.index_of(b[i])]));
    }
}

/// What a run leaves, a replica of its standing has, every node where the moves put it.
pub(crate) proof fn lemma_stands_seated(
    c: ClientId,
    pool: Set<OpV>,
    own: Set<GroupKey>,
    d: DocV,
    p: Seq<OpV>,
    l: Seq<OpV>,
)
    requires
        authored_alone(pool),
        stands(c, pool, own, d, p, l, Set::empty()),
    ensures
        seated(d.tree.plain()),
        shown_right(d.tree.plain()),
        d.tree.gist() == DocV::empty(c).ran(l).tree.gist(),
{
    let e = DocV::empty(c).ran(l);
    let none = Map::<ClientId, u64>::empty();
    reveal(stands);
    reveal(stands_at);
    let rank = lemma_pool_rank(pool);
    lemma_grown(c, pool, l, rank);
    assert(d.tree == wet(wet(d.tree, none), d.tree.high_water));
    assert(d.tree == wet(e.tree, d.tree.high_water));
    assert(d.tree.gist() == e.tree.gist());
    assert(d.tree.plain() == wet(e.tree.plain(), d.tree.high_water));
    lemma_wet_seated(e.tree.plain(), d.tree.high_water);
    lemma_run_shown(c, pool, l, rank);
    lemma_wet_shown(e.tree.plain(), d.tree.plain());
}

pub(crate) proof fn lemma_wet_seated(t: TreeV, hw: Map<ClientId, u64>)
    requires
        seated(t),
    ensures
        seated(wet(t, hw)),
{
    reveal(seated);
    let u = wet(t, hw);
    assert forall|n: ElementId| #[trigger] u.node_handle(n) == t.node_handle(n) by {}
}

/// Whether two replicas have one state, but for the order in which placements came and what
/// is displaced, the same bytes to write of it, the same clocks, and the same ops applied,
/// settled and waiting.
pub open spec fn agree(a: DocV, b: DocV) -> bool {
    &&& a.tree.plain().alike(b.tree.plain())
    &&& a.tree.written() == b.tree.written()
    &&& a.tree.gist() == b.tree.gist()
    &&& a.tree.moves == b.tree.moves
    &&& a.tree.revealed == b.tree.revealed
    &&& a.lamport == b.lamport
    &&& a.zone_clocks == b.zone_clocks
    &&& a.seen == b.seen
    &&& a.resolved == b.resolved
    &&& forall|id: OpId| #[trigger] op_at(a.buffer, id) == op_at(b.buffer, id)
}

/// Replicas that the same ops left somewhere, with nothing more that can apply, agree.
pub(crate) proof fn lemma_agree(
    c: ClientId,
    ops: Seq<OpV>,
    a: DocV,
    q: Seq<OpV>,
    l: Seq<OpV>,
    b: DocV,
    r: Seq<OpV>,
    m: Seq<OpV>,
)
    requires
        authored(ops),
        stands(c, bares(ops), Set::empty(), a, q, l, Set::empty()),
        stands(c, bares(ops), Set::empty(), b, r, m, Set::empty()),
        quiet(a),
        quiet(b),
        forall|x: OpV| #[trigger] q.contains(x) <==> r.contains(x),
        forall|x: OpV| #[trigger] q.contains(x) ==> ops.contains(x),
    ensures
        agree(a, b),
{
    let pool = bares(ops);
    let none = Set::<GroupKey>::empty();
    assert forall|x: OpV| #[trigger] r.contains(x) implies ops.contains(x) by {
        assert(q.contains(x));
    }
    lemma_grouped_within(q, ops);
    lemma_grouped_within(r, ops);
    assert(q.no_duplicates() && r.no_duplicates()) by {
        reveal(stands);
    }
    assert(a.resolved =~= b.resolved) by {
        assert forall|k: GroupKey| #[trigger] a.resolved.contains(k) <==> b.resolved.contains(k) by {
            lemma_settled(c, pool, none, a, q, l, k);
            lemma_settled(c, pool, none, b, r, m, k);
            if settled(q, k) {
                lemma_settled_alike(q, r, k);
            }
            if settled(r, k) {
                lemma_settled_alike(r, q, k);
            }
        }
    }
    let free = Set::new(|x: OpV| ran_of(q, a.resolved, x));
    assert forall|x: OpV| #[trigger] free.contains(x) <==> ran_of(r, b.resolved, x) by {
        if ran_of(q, a.resolved, x) {
            let y = choose|op: OpV| #[trigger]
                q.contains(op) && x == bare(op) && freed(a.resolved, op);
            assert(r.contains(y));
        }
        if ran_of(r, b.resolved, x) {
            let y = choose|op: OpV| #[trigger]
                r.contains(op) && x == bare(op) && freed(a.resolved, op);
            assert(q.contains(y));
        }
    }
    lemma_exhausted(c, pool, none, a, q, l, free);
    lemma_exhausted(c, pool, none, b, r, m, free);
    assert(runs_in_turn(c, pool, l) && runs_in_turn(c, pool, m)) by {
        reveal(stands);
    }
    lemma_runs_within(c, pool, l, m, free);
    lemma_runs_within(c, pool, m, l, free);
    lemma_same_ops(c, pool, l, m);
    lemma_same_figures(q, r);
    lemma_stands_seated(c, pool, none, a, q, l);
    lemma_stands_seated(c, pool, none, b, r, m);
    assert(same_standing(a, b) && a.tree.high_water == b.tree.high_water) by {
        reveal(stands);
        reveal(stands_at);
        reveal(alike);
    }
    assert(a.tree.moves == b.tree.moves) by {
        assert(a.tree.moves.base == a.tree.gist().tree.moves.base);
        assert(b.tree.moves.base == b.tree.gist().tree.moves.base);
        assert(a.tree.moves.log == a.tree.gist().log && b.tree.moves.log == b.tree.gist().log);
    }
    assert(a.tree.revealed == a.tree.gist().tree.revealed);
    assert(b.tree.revealed == b.tree.gist().tree.revealed);
    lemma_gist_written(a.tree, b.tree);
    assert(a.tree.parents == a.tree.written().parents);
    assert(b.tree.parents == b.tree.written().parents);
    lemma_shown_alike(a.tree, b.tree);
    assert forall|id: OpId| #[trigger] op_at(a.buffer, id) == op_at(b.buffer, id) by {
        lemma_op_at(a.buffer, id);
        lemma_op_at(b.buffer, id);
        if let Some(x) = op_at(a.buffer, id) {
            lemma_waits_alike(c, pool, none, a, q, l, b, r, m, x);
            assert(b.buffer[b.buffer.index_of(x)].id == id);
            lemma_waits_once(c, pool, none, b, r, m, x, op_at(b.buffer, id)->Some_0);
        }
        if let Some(x) = op_at(b.buffer, id) {
            lemma_waits_alike(c, pool, none, b, r, m, a, q, l, x);
            assert(a.buffer[a.buffer.index_of(x)].id == id);
        }
    }
}

/// Delivery order does not show: replicas that fold the same authored ops, nodes and their
/// moves among them, in whatever order and however often each arrives, have seen the same
/// ops, have the same clocks and published figures, hold the same state and show the same
/// of it, have logged the same moves and settled the same groups, and wait for the same ops.
pub proof fn law_delivery_order_does_not_show(c: ClientId, ops: Seq<OpV>, p: Seq<OpV>)
    requires
        authored(ops),
        forall|x: OpV| #[trigger] ops.contains(x) <==> p.contains(x),
    ensures
        agree(with_ops(DocV::empty(c), ops), with_ops(DocV::empty(c), p)),
{
    let (q, l) = lemma_deliver(c, ops, ops);
    let (r, m) = lemma_deliver(c, ops, p);
    lemma_agree(
        c,
        ops,
        with_ops(DocV::empty(c), ops),
        q,
        l,
        with_ops(DocV::empty(c), p),
        r,
        m,
    );
}

} // verus!
