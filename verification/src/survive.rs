//! A replica survives its snapshot: what authored ops made of it, with the ops that wait,
//! reads back from its bytes.

use crate::annot::{GroupKey, Placement};
use crate::authored::{lemma_applied_figures, lemma_pool_rank, runs_in_turn, TraceV};
use crate::clientid::ClientId;
use crate::converge::{lemma_record, raised, wet};
use crate::deliver::{
    authored, bare, bares, figures, freed, lemma_absorbed, lemma_has, lemma_waits_once,
    lemma_wet_seated, quiet, shown, stands, stands_at,
};
use crate::doc::{complete_at, holds_op, op_at, DocV, Document};
use crate::elementid::ElementId;
use crate::floor::in_log;
use crate::format::{exactly, op_carried, DecodeError};
use crate::gist::lemma_gist_doms;
use crate::grown::{known, lemma_grown, lemma_grown_ends, seated, traces};
use crate::identity::{admissible, root_element, spec_span};
use crate::list_state::list_carried;
use crate::lived::{lemma_lived, TurnV};
use crate::map_state::slot_carried;
use crate::once_laws::ids_once;
use crate::op::{OpId, OpV};
use crate::rebuild::links_end;
use crate::record_laws::{law_an_empty_record_dominates, law_the_record_dominates};
use crate::restore_laws::law_replicas_that_tell_are_settled;
use crate::snapshot::parse_state;
use crate::snapshot_laws::law_trailing_bytes_are_refused;
use crate::stamp::{Stamp, LAMPORT_STATE_CEILING, LAMPORT_WIRE_CEILING};
use crate::state::{enc_state, state_fits};
use crate::state_laws::{below_the_end, law_an_idle_snapshot_loads, law_reencoding_is_stable};
use crate::table::{lemma_ordered_exists, ordered};
use crate::told::{
    lemma_run_tells, lemma_stands_told, lemma_tells_base, lemma_tells_places, stands_told,
};
use crate::tree::TreeV;
use crate::whole::{all_carried, lemma_whole, whole_in};
use vstd::prelude::*;

verus! {

// --- figures and clocks ---

/// Whether one set of figures is at least the other.
spec fn reaches(a: Map<ClientId, u64>, b: Map<ClientId, u64>) -> bool {
    forall|c: ClientId| #[trigger] a.dom().contains(c) ==> b.dom().contains(c) && a[c] <= b[c]
}

proof fn lemma_raised_reaches(a: Map<ClientId, u64>, b: Map<ClientId, u64>, s: Stamp, n: nat)
    requires
        reaches(a, b),
    ensures
        reaches(raised(a, s, n), raised(b, s, n)),
{
    reveal(TreeV::record);
}

proof fn lemma_run_figures(c: ClientId, q: Seq<OpV>)
    ensures
        DocV::empty(c).ran(q).tree.high_water == figures(q),
    decreases q.len(),
{
    if q.len() > 0 {
        lemma_run_figures(c, q.drop_last());
        lemma_applied_figures(DocV::empty(c).ran(q.drop_last()), q.last());
    }
}

proof fn lemma_figures_reach(q: Seq<OpV>, hw: Map<ClientId, u64>)
    requires
        forall|i: int|
            0 <= i < q.len() ==> raised(hw, (#[trigger] q[i]).stamp, spec_span(q[i].kind)) == hw,
    ensures
        reaches(figures(q), hw),
    decreases q.len(),
{
    if q.len() > 0 {
        let h = q.drop_last();
        assert forall|i: int| 0 <= i < h.len() implies raised(
            hw,
            (#[trigger] h[i]).stamp,
            spec_span(h[i].kind),
        ) == hw by {
            assert(h[i] == q[i]);
        }
        lemma_figures_reach(h, hw);
        assert(q[q.len() - 1] == q.last());
        lemma_raised_reaches(figures(h), hw, q.last().stamp, spec_span(q.last().kind));
    }
}

/// Figures that admissible ops leave are within what a snapshot carries.
proof fn lemma_figures_bounded(p: Seq<OpV>)
    requires
        forall|i: int| 0 <= i < p.len() ==> admissible(#[trigger] p[i]),
    ensures
        forall|c: ClientId| #[trigger]
            figures(p).dom().contains(c) ==> figures(p)[c] <= LAMPORT_STATE_CEILING,
    decreases p.len(),
{
    if p.len() > 0 {
        let h = p.drop_last();
        let op = p.last();
        assert forall|i: int| 0 <= i < h.len() implies admissible(#[trigger] h[i]) by {
            assert(h[i] == p[i]);
        }
        assert(p[p.len() - 1] == op);
        lemma_figures_bounded(h);
        let t = TreeV { high_water: figures(h), ..TreeV::empty() };
        let d = DocV { tree: t, ..DocV::empty(arbitrary()) };
        assert(t.dominated()) by {
            assert forall|x: Stamp| !#[trigger] t.stamped(x) by {}
        }
        law_the_record_dominates(d, op);
        lemma_record(t, op.stamp, spec_span(op.kind));
        assert(d.held(op).tree.high_water == figures(p));
    }
}

proof fn lemma_run_dominated(c: ClientId, q: Seq<OpV>)
    requires
        all_carried(q),
    ensures
        DocV::empty(c).ran(q).tree.dominated(),
        DocV::empty(c).ran(q).tree.bounded(),
        DocV::empty(c).ran(q).lamport <= LAMPORT_WIRE_CEILING,
        DocV::empty(c).ran(q).zone_clocks == Map::<u32, u64>::empty(),
    decreases q.len(),
{
    if q.len() == 0 {
        law_an_empty_record_dominates(c);
    } else {
        let h = q.drop_last();
        assert(all_carried(h)) by {
            assert forall|i: int| 0 <= i < h.len() implies op_carried(#[trigger] h[i])
                && admissible(h[i]) by {
                assert(h[i] == q[i]);
            }
        }
        assert(q[q.len() - 1] == q.last());
        lemma_run_dominated(c, h);
        law_the_record_dominates(DocV::empty(c).ran(h), q.last());
    }
}

// --- what is whole reads back ---

/// A whole state that tells where its nodes stand can be read back.
proof fn lemma_whole_reads(t: TreeV, k: Set<TraceV>)
    requires
        whole_in(t.gist().tree, t.gist().tree),
        forall|s: Stamp| #[trigger] t.moves.log.dom().contains(s) ==> s.offset == 0,
        stands_told(t, k),
        t.bounded(),
        links_end(t.parents),
    ensures
        t.readable(),
        t.bounded_stores(),
        t.tells_base(),
        t.tells_places(),
        t.tells_awaiting(),
        t.hangs_settled(),
        t.places_once(),
        t.places_apart(),
{
    reveal(whole_in);
    let p = t.gist().tree;
    lemma_gist_doms(t);
    lemma_tells_places(t, k);
    lemma_tells_base(t, k);
    assert forall|m: ElementId, key: Seq<u8>|
        t.maps.dom().contains(m) && #[trigger] t.maps[m].slots.dom().contains(
            key,
        ) implies slot_carried(t.maps[m].slots[key]) && t.slot_resolves(
        t.maps[m].slots[key],
    ) by {
        assert(p.maps[m].slots == t.maps[m].slots);
        assert(p.maps[m].slots.dom().contains(key));
    }
    assert forall|l: ElementId| #[trigger] t.lists.dom().contains(
        l,
    ) implies list_carried(t.lists[l]) && t.lists[l].items.dom().finite() by {
        assert(p.lists.dom().contains(l));
        assert(list_carried(p.lists[l]));
        assert(p.lists[l].places == t.lists[l].places);
        assert(p.lists[l].items.dom() =~= t.lists[l].items.dom());
    }
    assert forall|l: ElementId| #[trigger] t.texts.dom().contains(
        l,
    ) implies list_carried(t.texts[l]) by {
        assert(p.texts.dom().contains(l));
        assert(list_carried(p.texts[l]));
        assert(p.texts[l].places == t.texts[l].places);
    }
    assert forall|l: ElementId, s: Stamp|
        t.lists.dom().contains(l) && #[trigger] t.lists[l].items.dom().contains(
            s,
        ) implies t.has_element(t.lists[l].items[s].value) by {
        assert(p.lists[l].items.dom() =~= t.lists[l].items.dom());
        assert(p.lists[l].items.dom().contains(s));
        assert(p.has_element(p.lists[l].items[s].value));
    }
    assert forall|r: ElementId| #[trigger] t.ranged.dom().contains(r) implies t.ranged_carried(
        r,
        t.ranged[r],
    ) by {
        assert(p.ranged.dom().contains(r));
    }
    assert forall|n: ElementId, q: Placement| #[trigger] t.spells(n, q) implies q.stamp.offset
        == 0 by {
        reveal(seated);
        assert(t.plain().placements[n].contains(q));
        assert(t.plain().placement_index.dom().contains(q));
        assert(t.plain().lists[q.list].places == t.lists[q.list].places);
        assert(t.lists.dom().contains(q.list));
    }
    assert forall|n: ElementId| !#[trigger] t.awaits(n) by {
        if t.awaits(n) {
            assert(t.parents.dom().contains(n));
        }
    }
    assert(t.tells_awaiting()) by {
        assert(t.revealed =~= Set::new(
            |n: ElementId|
                (t.xml_elements.dom().contains(n) || t.texts.dom().contains(n)) && t.awaits(n),
        ));
    }
}

// --- the law ---

/// Whether every op is one the bytes carry, as one that was decoded is.
pub open spec fn off_the_wire(ops: Seq<OpV>) -> bool {
    forall|op: OpV| #[trigger] ops.contains(op) ==> op_carried(op)
}

/// The ops of a run are ones the bytes carry.
proof fn lemma_run_carried(
    c: ClientId,
    ops: Seq<OpV>,
    own: Set<GroupKey>,
    d: DocV,
    p: Seq<OpV>,
    l: Seq<OpV>,
)
    requires
        stands(c, bares(ops), own, d, p, l, Set::empty()),
        off_the_wire(ops),
        forall|x: OpV| #[trigger] p.contains(x) ==> ops.contains(x) && admissible(x),
    ensures
        all_carried(l),
        forall|i: int|
            0 <= i < l.len() ==> raised(
                d.tree.high_water,
                (#[trigger] l[i]).stamp,
                spec_span(l[i].kind),
            ) == d.tree.high_water,
{
    reveal(stands);
    assert forall|i: int| 0 <= i < l.len() implies op_carried(#[trigger] l[i]) && admissible(l[i])
        && raised(d.tree.high_water, l[i].stamp, spec_span(l[i].kind)) == d.tree.high_water by {
        assert(l.contains(l[i]));
        let y = choose|op: OpV| #[trigger]
            p.contains(op) && l[i] == bare(op) && freed(d.resolved, op);
        assert(ops.contains(y));
        lemma_absorbed(p, y);
    }
}

/// The figures cover what waits.
proof fn lemma_covers(
    c: ClientId,
    ops: Seq<OpV>,
    own: Set<GroupKey>,
    d: DocV,
    p: Seq<OpV>,
    l: Seq<OpV>,
)
    requires
        stands(c, bares(ops), own, d, p, l, Set::empty()),
        off_the_wire(ops),
        forall|x: OpV| #[trigger] p.contains(x) ==> ops.contains(x) && admissible(x),
    ensures
        d.covers_waiting(),
        forall|i: int| 0 <= i < d.buffer.len() ==> op_carried(#[trigger] d.buffer[i]),
{
    let b = d.buffer;
    reveal(stands);
    assert forall|i: int| 0 <= i < b.len() implies op_carried(#[trigger] b[i]) && raised(
        d.tree.high_water,
        b[i].stamp,
        spec_span(b[i].kind),
    ) == d.tree.high_water by {
        assert(b.contains(b[i]));
        let y = choose|op: OpV| #[trigger] p.contains(op) && b[i] == shown(d.resolved, op);
        assert(ops.contains(y));
        lemma_absorbed(p, y);
    }
}

/// What waits on a replica that authored ops made is as it should be.
proof fn lemma_idle(
    c: ClientId,
    ops: Seq<OpV>,
    own: Set<GroupKey>,
    d: DocV,
    p: Seq<OpV>,
    l: Seq<OpV>,
)
    requires
        authored(ops),
        stands(c, bares(ops), own, d, p, l, Set::empty()),
        quiet(d),
        d.placed_alike(),
        off_the_wire(ops),
        forall|x: OpV| #[trigger] p.contains(x) ==> ops.contains(x) && admissible(x),
    ensures
        d.idle(),
{
    let b = d.buffer;
    assert(ids_once(b)) by {
        assert forall|i: int, j: int| 0 <= i < j < b.len() implies (#[trigger] b[i]).id != (
        #[trigger] b[j]).id by {
            assert(b.contains(b[i]) && b.contains(b[j]));
            assert(b.no_duplicates()) by {
                reveal(stands);
            }
            if b[i].id == b[j].id {
                lemma_waits_once(c, bares(ops), own, d, p, l, b[i], b[j]);
            }
        }
    }
    assert forall|i: int| 0 <= i < b.len() implies d.waits_rightly(#[trigger] b[i]) by {
        assert(b.contains(b[i]));
        lemma_has(c, bares(ops), own, d, p, l, b[i].id);
        assert(holds_op(b, b[i].id));
        reveal(stands);
        let y = choose|op: OpV| #[trigger] p.contains(op) && b[i] == shown(d.resolved, op);
        assert(ops.contains(y));
        reveal(quiet);
    }
    assert forall|i: int| 0 <= i < b.len() implies !complete_at(b, i) by {
        reveal(quiet);
    }
}

/// What authored ops make of a replica can be written down and read back.
proof fn lemma_survives(
    c: ClientId,
    ops: Seq<OpV>,
    own: Set<GroupKey>,
    d: DocV,
    p: Seq<OpV>,
    l: Seq<OpV>,
)
    requires
        authored(ops),
        off_the_wire(ops),
        stands(c, bares(ops), own, d, p, l, Set::empty()),
        forall|x: OpV| #[trigger] p.contains(x) ==> ops.contains(x) && admissible(x),
    ensures
        d.tree.readable(),
        d.tree.bounded_stores(),
        d.tree.tells_base(),
        d.tree.tells_places(),
        d.tree.tells_awaiting(),
        d.tree.hangs_settled(),
        d.tree.places_once(),
        d.tree.places_apart(),
        d.tree.moves.log.dom().finite(),
        d.tree.figures_cover(d.tree.move_log()),
        d.tree.maps.dom().contains(root_element()),
        d.lamport <= LAMPORT_WIRE_CEILING,
        d.zone_clocks == Map::<u32, u64>::empty(),
        below_the_end(d.tree.lists),
        below_the_end(d.tree.texts),
{
    let pool = bares(ops);
    let e = DocV::empty(c).ran(l);
    let t = d.tree;
    let u = e.tree;
    let rank = lemma_pool_rank(pool);
    let k = traces(l);
    assert(runs_in_turn(c, pool, l) && t.high_water == figures(p) && d.lamport == e.lamport
        && d.zone_clocks == e.zone_clocks && t == wet(u, t.high_water)) by {
        reveal(stands);
        reveal(stands_at);
        let none = Map::<ClientId, u64>::empty();
        assert(t == wet(wet(t, none), t.high_water));
    }
    lemma_run_carried(c, ops, own, d, p, l);
    lemma_run_dominated(c, l);
    lemma_run_figures(c, l);
    lemma_figures_reach(l, t.high_water);
    assert(t.bounded()) by {
        assert forall|i: int| 0 <= i < p.len() implies admissible(#[trigger] p[i]) by {
            assert(p.contains(p[i]));
        }
        lemma_figures_bounded(p);
    }
    lemma_grown(c, pool, l, rank);
    assert(links_end(t.parents)) by {
        lemma_grown_ends(u.plain(), k, rank);
        assert(u.plain().parents == t.parents);
    }
    assert(t.gist() == u.gist());
    lemma_whole(c, pool, l, rank);
    lemma_run_tells(c, pool, l, rank);
    lemma_stands_told(c, pool, l, u, rank);
    assert(stands_told(t, k)) by {
        assert(t.plain() == wet(u.plain(), t.high_water));
        lemma_wet_seated(u.plain(), t.high_water);
    }
    lemma_whole_reads(t, k);
    assert(t.maps.dom().contains(root_element())) by {
        reveal(known);
        assert(u.plain().maps.dom() =~= t.maps.dom());
    }
    assert(t.dominated()) by {
        assert forall|x: Stamp| #[trigger] t.stamped(x) && x.lamport > 0
            implies t.high_water.dom().contains(x.client) && t.high_water[x.client]
            >= x.lamport by {
            assert(u.stamped(x));
            assert(u.high_water.dom().contains(x.client));
        }
    }
    lemma_covered(t);
    lemma_below(t);
}

/// A state whose record dominates its content has the figures a reader works out.
proof fn lemma_covered(t: TreeV)
    requires
        t.dominated(),
        t.moves.log.dom().finite(),
    ensures
        t.figures_cover(t.move_log()),
{
    let log = t.move_log();
    let q = ordered::<Stamp>(t.moves.log.dom());
    lemma_ordered_exists::<Stamp>(t.moves.log.dom());
    assert forall|c: ClientId, n: u64| #[trigger] t.noted(log, c, n)
        implies t.high_water.dom().contains(c) && t.high_water[c] >= n by {
        let x = choose|x: Stamp| x.client == c && x.lamport == n && #[trigger] t.carries(log, x);
        if in_log(log, x) {
            let i = choose|i: int| 0 <= i < log.len() && (#[trigger] log[i]).0 == x;
            assert(q[i] == x);
            assert(q.to_set().contains(x));
        }
        assert(t.stamped(x));
    }
}

proof fn lemma_below(t: TreeV)
    requires
        t.dominated(),
        t.bounded(),
    ensures
        below_the_end(t.lists),
        below_the_end(t.texts),
{
    assert forall|l: ElementId, id: Stamp|
        t.lists.dom().contains(l) && #[trigger] t.lists[l].places.dom().contains(id)
        implies id.lamport < u64::MAX by {
        assert(TreeV::sequence_holds(t.lists, id));
        assert(t.stamped(id));
    }
    assert forall|l: ElementId, id: Stamp|
        t.texts.dom().contains(l) && #[trigger] t.texts[l].places.dom().contains(id)
        implies id.lamport < u64::MAX by {
        assert(TreeV::sequence_holds(t.texts, id));
        assert(t.stamped(id));
    }
}

/// A replica survives its snapshot: whatever it has lived through, ops that arrived in
/// whatever order, edits of its own and transactions, its bytes read back as a replica with
/// the same state, clocks, applied ops, settled groups and waiting ops, which encodes to the
/// same bytes again; with more bytes behind them they are refused.
pub proof fn law_a_replica_survives_its_snapshot(
    d: Document,
    c: ClientId,
    turns: Seq<TurnV>,
    b: Document,
    rest: Seq<u8>,
)
    requires
        d.wf(),
        state_fits(d),
        d@ == DocV::empty(c).lived(turns),
        DocV::empty(c).lives_well(turns),
        authored(DocV::empty(c).heard(turns)),
        off_the_wire(DocV::empty(c).heard(turns)),
        rest.len() > 0,
    ensures
        exactly(parse_state(enc_state(d))) matches Ok(x) && x.client == d@.client && x.lamport
            == d@.lamport && x.zone_clocks == d@.zone_clocks && x.seq == d@.seq && x.seen
            == d@.seen && x.resolved == d@.resolved && x.tree.written() == d@.tree.written() && (
        forall|id: OpId| #[trigger] op_at(x.buffer, id) == op_at(d@.buffer, id)),
        b.wf() && exactly(parse_state(enc_state(d))) == Ok::<DocV, DecodeError>(b@) ==> enc_state(b)
            == enc_state(d),
        exactly(parse_state(enc_state(d) + rest)) == Err::<DocV, DecodeError>(
            DecodeError::TrailingBytes,
        ),
{
    let ops = DocV::empty(c).heard(turns);
    let own = DocV::empty(c).made(turns);
    let (p, l) = lemma_lived(c, ops, turns);
    lemma_covers(c, ops, own, d@, p, l);
    lemma_survives(c, ops, own, d@, p, l);
    law_replicas_that_tell_are_settled(d@);
    lemma_idle(c, ops, own, d@, p, l);
    assert(d@.readable());
    law_an_idle_snapshot_loads(d);
    law_trailing_bytes_are_refused(d, rest);
    if b.wf() && exactly(parse_state(enc_state(d))) == Ok::<DocV, DecodeError>(b@) {
        assert(parse_state(enc_state(d))->Ok_0.1 =~= Seq::empty());
        law_reencoding_is_stable(d, b);
    }
}

} // verus!
