//! Replicas that have seen the same ops agree: an op that came too early lands as if it
//! had come in turn.

use crate::anchor::Anchor;
use crate::annot::{GroupKey, Placement};
use crate::clientid::ClientId;
use crate::doc::{
    by_seq, complete_at, first_complete, group_of, holds_op, members_of, others_of, put_by_seq,
    untagged, DocV,
};
use crate::element::ElementV;
use crate::elementid::{ElementId, ElementKind};
use crate::identity::{admissible, spec_span};
use crate::op::{OpKindV, OpV, Tx};
use crate::ranged::{RangeAnchor, RangedInitV};
use crate::scalar::ScalarV;
use crate::stamp::{Stamp, LAMPORT_WIRE_CEILING};
use crate::table::ordered;
use crate::tree::{Claim, ContainerV, TreeV};
use vstd::prelude::*;

verus! {

// --- the figures of published stamps stand apart ---

/// The figures once a stamp's reservation is recorded.
pub open spec fn raised(hw: Map<ClientId, u64>, stamp: Stamp, span: nat) -> Map<ClientId, u64> {
    (TreeV { high_water: hw, ..TreeV::empty() }).record(stamp, span).high_water
}

/// A state with other figures.
pub open spec fn wet(t: TreeV, hw: Map<ClientId, u64>) -> TreeV {
    TreeV { high_water: hw, ..t }
}

pub(crate) proof fn lemma_record(t: TreeV, stamp: Stamp, span: nat)
    ensures
        t.record(stamp, span) == wet(t, raised(t.high_water, stamp, span)),
{
    reveal(TreeV::record);
}

/// Figures only rise, so it does not matter when.
pub(crate) proof fn lemma_raised(hw: Map<ClientId, u64>, a: Stamp, m: nat, b: Stamp, n: nat)
    ensures
        raised(raised(hw, a, m), b, n) == raised(raised(hw, b, n), a, m),
        raised(raised(hw, a, m), a, m) == raised(hw, a, m),
{
    reveal(TreeV::record);
    assert(raised(raised(hw, a, m), b, n) =~= raised(raised(hw, b, n), a, m));
    assert(raised(raised(hw, a, m), a, m) =~= raised(hw, a, m));
}

proof fn lemma_wet_displaced(t: TreeV, hw: Map<ClientId, u64>, e: ElementV, to: bool)
    ensures
        wet(t, hw).with_displaced(e, to) == wet(t.with_displaced(e, to), hw),
{
    reveal(TreeV::with_displaced);
}

proof fn lemma_wet_evicted(t: TreeV, hw: Map<ClientId, u64>, e: Option<ElementV>)
    ensures
        wet(t, hw).with_evicted(e) == wet(t.with_evicted(e), hw),
{
    reveal(TreeV::with_evicted);
    if let Some(x) = e {
        lemma_wet_displaced(t, hw, x, true);
    }
}

proof fn lemma_wet_orphan(
    t: TreeV,
    hw: Map<ClientId, u64>,
    prior: Option<ElementV>,
    out: Option<ElementV>,
)
    ensures
        wet(t, hw).with_orphan(prior, out) == wet(t.with_orphan(prior, out), hw),
{
    reveal(TreeV::with_orphan);
}

proof fn lemma_wet_registered(t: TreeV, hw: Map<ClientId, u64>, id: ElementId, c: ContainerV)
    ensures
        wet(t, hw).with_registered(id, c) == wet(t.with_registered(id, c), hw),
{
    reveal(TreeV::with_registered);
}

proof fn lemma_wet_slot_ops(
    t: TreeV,
    hw: Map<ClientId, u64>,
    map: ElementId,
    key: Seq<u8>,
    v: ScalarV,
    stamp: Stamp,
)
    ensures
        wet(t, hw).map_set(map, key, v, stamp) == wet(t.map_set(map, key, v, stamp), hw),
        wet(t, hw).map_delete(map, key, stamp) == wet(t.map_delete(map, key, stamp), hw),
        wet(t, hw).register_set(map, key, v, stamp) == wet(t.register_set(map, key, v, stamp), hw),
{
    reveal(TreeV::map_set);
    reveal(TreeV::map_delete);
    reveal(TreeV::register_set);
    if t.maps.dom().contains(map) {
        let s = t.slot(map, key);
        let prior = crate::map::live_value(s);
        let e = ElementV::Scalar(v);
        let out = crate::map::set_evicts(s, e, stamp);
        let t1 = t.with_slot(map, key, crate::map::slot_set(s, e, stamp));
        assert(wet(t, hw).with_slot(map, key, crate::map::slot_set(s, e, stamp)) == wet(t1, hw));
        lemma_wet_evicted(t1, hw, out);
        lemma_wet_orphan(t1.with_evicted(out), hw, prior, out);
        let out = if crate::map::slot_wins(s, stamp) {
            prior
        } else {
            None
        };
        let t2 = t.with_slot(map, key, crate::map::slot_delete(s, stamp));
        assert(wet(t, hw).with_slot(map, key, crate::map::slot_delete(s, stamp)) == wet(t2, hw));
        lemma_wet_evicted(t2, hw, out);
        lemma_wet_orphan(t2.with_evicted(out), hw, prior, out);
        let id = crate::elementid::derived_id(t.maps[map].id, key, ElementKind::Register);
        let out = crate::map::register_evicts(s, stamp);
        let slot = crate::map::slot_set_register(s, id, v, stamp);
        let t3 = t.with_slot(map, key, slot);
        assert(wet(t, hw).with_slot(map, key, slot) == wet(t3, hw));
        lemma_wet_evicted(t3, hw, out);
        lemma_wet_orphan(t3.with_evicted(out), hw, prior, out);
    }
}

proof fn lemma_wet_install(
    t: TreeV,
    hw: Map<ClientId, u64>,
    map: ElementId,
    key: Seq<u8>,
    e: ElementV,
    stamp: Stamp,
)
    ensures
        wet(t, hw).install_handle(map, key, e, stamp) == wet(
            t.install_handle(map, key, e, stamp),
            hw,
        ),
{
    reveal(TreeV::install_handle);
    let s = t.slot(map, key);
    let slot = crate::map::slot_set(s, e, stamp);
    let out = crate::map::set_evicts(s, e, stamp);
    let prior = crate::map::live_value(s);
    let won = slot.value matches Some(v) && v.same_handle(e);
    let t1 = t.with_slot(map, key, slot);
    assert(wet(t, hw).with_slot(map, key, slot) == wet(t1, hw));
    lemma_wet_evicted(t1, hw, out);
    let t2 = t1.with_evicted(out);
    lemma_wet_orphan(t2, hw, prior, out);
    lemma_wet_displaced(t2.with_orphan(prior, out), hw, e, !won);
}

proof fn lemma_wet_create(
    t: TreeV,
    hw: Map<ClientId, u64>,
    map: ElementId,
    key: Seq<u8>,
    stamp: Stamp,
    c: ContainerV,
)
    ensures
        wet(t, hw).create_container(map, key, stamp, c) == wet(
            t.create_container(map, key, stamp, c),
            hw,
        ),
{
    reveal(TreeV::create_container);
    let child = c.child_id(map, key);
    lemma_wet_registered(t, hw, child, c);
    lemma_wet_install(t.with_registered(child, c), hw, map, key, c.handle(child), stamp);
}

proof fn lemma_wet_count(
    t: TreeV,
    hw: Map<ClientId, u64>,
    map: ElementId,
    key: Seq<u8>,
    author: ClientId,
    amount: u32,
    up: bool,
    stamp: Stamp,
)
    ensures
        wet(t, hw).count(map, key, author, amount, up, stamp) == wet(
            t.count(map, key, author, amount, up, stamp),
            hw,
        ),
{
    reveal(TreeV::count);
    if t.maps.dom().contains(map) {
        let id = crate::elementid::derived_id(map, key, ElementKind::Counter);
        let counters = crate::tree::or_insert(
            t.counters,
            id,
            crate::counter::CounterV { id, tallies: Map::empty(), displaced: false },
        );
        let c = counters[id];
        let tallies = if up {
            crate::counter::tallies_inc(c.tallies, author, amount)
        } else {
            crate::counter::tallies_dec(c.tallies, author, amount)
        };
        let u = TreeV {
            counters: counters.insert(id, crate::counter::CounterV { tallies, ..c }),
            ..t
        };
        lemma_wet_install(u, hw, map, key, ElementV::Counter(id), stamp);
    }
}

proof fn lemma_wet_only(
    t: TreeV,
    hw: Map<ClientId, u64>,
    places: Seq<Placement>,
    list: ElementId,
    live: Option<Stamp>,
)
    ensures
        wet(t, hw).with_only(places, list, live) == wet(t.with_only(places, list, live), hw),
    decreases places.len(),
{
    if places.len() > 0 {
        lemma_wet_only(t, hw, places.drop_last(), list, live);
    }
}

proof fn lemma_wet_settle_all(
    t: TreeV,
    hw: Map<ClientId, u64>,
    tree: Map<ElementId, ElementId>,
    nodes: Seq<ElementId>,
)
    ensures
        wet(t, hw).settle_all(tree, nodes) == wet(t.settle_all(tree, nodes), hw),
    decreases nodes.len(),
{
    reveal(TreeV::settle);
    if nodes.len() > 0 {
        lemma_wet_settle_all(t, hw, tree, nodes.drop_last());
        let u = t.settle_all(tree, nodes.drop_last());
        let node = nodes.last();
        if tree.dom().contains(node) {
            let list = crate::xml::node_children_id(tree[node]);
            let places = u.placements[node];
            assert(wet(u, hw).any_tombstoned(places) == u.any_tombstoned(places)) by {
                if u.any_tombstoned(places) {
                    let i = choose|i: int|
                        0 <= i < places.len() && u.is_tombstoned(#[trigger] places[i]);
                    assert(wet(u, hw).is_tombstoned(places[i]));
                }
                if wet(u, hw).any_tombstoned(places) {
                    let i = choose|i: int|
                        0 <= i < places.len() && wet(u, hw).is_tombstoned(#[trigger] places[i]);
                    assert(u.is_tombstoned(places[i]));
                }
            }
            let live = if u.any_tombstoned(places) {
                None
            } else {
                crate::tree::latest_in(places, list)
            };
            lemma_wet_only(u, hw, places, list, live);
        }
    }
}

pub(crate) proof fn lemma_wet_refold(t: TreeV, hw: Map<ClientId, u64>)
    ensures
        wet(t, hw).refold() == wet(t.refold(), hw),
{
    reveal(TreeV::refold);
    lemma_wet_settle_all(t, hw, t.moves.tree(), ordered::<ElementId>(t.placements.dom()));
}

proof fn lemma_wet_lists(
    t: TreeV,
    hw: Map<ClientId, u64>,
    list: ElementId,
    stamp: Stamp,
    v: ElementV,
    anchor: Anchor,
    id: Stamp,
)
    ensures
        wet(t, hw).list_insert(list, stamp, v, anchor) == wet(
            t.list_insert(list, stamp, v, anchor),
            hw,
        ),
        wet(t, hw).list_delete(list, id) == wet(t.list_delete(list, id), hw),
{
    reveal(TreeV::list_insert);
    reveal(TreeV::list_delete);
    let u = if t.lists.dom().contains(list) {
        t.with_list(list, crate::list::list_delete(t.lists[list], id))
    } else {
        t
    };
    lemma_wet_refold(u, hw);
}

proof fn lemma_wet_claim(t: TreeV, hw: Map<ClientId, u64>, p: Placement, node: ElementId)
    ensures
        wet(t, hw).with_claim(p, node) == wet(t.with_claim(p, node), hw),
        wet(t, hw).claim_of(p, node) == t.claim_of(p, node),
{
    reveal(TreeV::with_claim);
    reveal(TreeV::with_placement_evicted);
}

proof fn lemma_wet_seat(
    t: TreeV,
    hw: Map<ClientId, u64>,
    claim: Claim,
    p: Placement,
    e: ElementV,
    anchor: Anchor,
)
    ensures
        wet(t, hw).with_seat(claim, p, e, anchor) == wet(t.with_seat(claim, p, e, anchor), hw),
{
    reveal(TreeV::with_seat);
}

proof fn lemma_wet_birth(
    t: TreeV,
    hw: Map<ClientId, u64>,
    claim: Claim,
    p: Placement,
    child: ElementId,
    list: ElementId,
    c: ContainerV,
)
    ensures
        wet(t, hw).with_birth_placed(claim, p, child) == wet(
            t.with_birth_placed(claim, p, child),
            hw,
        ),
        wet(t, hw).with_owner(list, child) == wet(t.with_owner(list, child), hw),
        wet(t, hw).with_born(list, child, c) == wet(t.with_born(list, child, c), hw),
{
    reveal(TreeV::with_birth_placed);
    reveal(TreeV::with_owner);
    reveal(TreeV::with_born);
    lemma_wet_registered(t, hw, child, c);
}

proof fn lemma_wet_insert_child(
    t: TreeV,
    hw: Map<ClientId, u64>,
    list: ElementId,
    tag: Option<Seq<u8>>,
    anchor: Anchor,
    stamp: Stamp,
)
    ensures
        wet(t, hw).insert_child(list, tag, anchor, stamp) == wet(
            t.insert_child(list, tag, anchor, stamp),
            hw,
        ),
{
    reveal(TreeV::insert_child);
    if t.lists.dom().contains(list) {
        let c = match tag {
            Some(x) => ContainerV::XmlElement(x),
            None => ContainerV::Text,
        };
        let child = crate::identity::spec_xml_child_id(list, stamp, c.kind());
        let p = Placement { list, stamp };
        lemma_wet_birth(t, hw, Claim::Fresh, p, child, list, c);
        let t1 = t.with_born(list, child, c);
        let claim = t1.claim_of(p, child);
        lemma_wet_claim(t1, hw, p, child);
        let t2 = t1.with_claim(p, child);
        lemma_wet_seat(t2, hw, claim, p, c.handle(child), anchor);
        let t3 = t2.with_seat(claim, p, c.handle(child), anchor);
        lemma_wet_birth(t3, hw, claim, p, child, list, c);
        let t4 = t3.with_birth_placed(claim, p, child);
        lemma_wet_birth(t4, hw, claim, p, child, list, c);
        lemma_wet_refold(t4.with_owner(list, child), hw);
    }
}

pub(crate) proof fn lemma_wet_move(
    t: TreeV,
    hw: Map<ClientId, u64>,
    list: ElementId,
    node: ElementId,
    anchor: Anchor,
    stamp: Stamp,
)
    ensures
        wet(t, hw).move_node(list, node, anchor, stamp) == wet(
            t.move_node(list, node, anchor, stamp),
            hw,
        ),
{
    reveal(TreeV::move_node);
    let p = Placement { list, stamp };
    let owner = crate::treemove::link_of(t.parents, list);
    let handle = t.node_handle(node);
    let claim = t.claim_of(p, node);
    lemma_wet_claim(t, hw, p, node);
    assert(wet(t, hw).node_handle(node) == handle);
    let t1 = t.with_claim(p, node);
    lemma_wet_seat(t1, hw, claim, p, handle->Some_0, anchor);
    let t2 = t1.with_seat(claim, p, handle->Some_0, anchor);
    let t3 = if claim == Claim::Joined {
        t2
    } else {
        t2.with_placement(node, p)
    };
    let t4 = TreeV {
        moves: t3.moves.apply(stamp, node, owner->Some_0),
        revealed: t3.revealed.remove(node),
        ..t3
    };
    lemma_wet_refold(t4, hw);
}

proof fn lemma_wet_reveal(t: TreeV, hw: Map<ClientId, u64>, node: ElementId, tag: Option<Seq<u8>>)
    ensures
        wet(t, hw).reveal_node(node, tag) == wet(t.reveal_node(node, tag), hw),
{
    reveal(TreeV::reveal_node);
    let c = match tag {
        Some(x) => ContainerV::XmlElement(x),
        None => ContainerV::Text,
    };
    lemma_wet_registered(t, hw, node, c);
    assert(wet(t, hw).node_handle(node) == t.node_handle(node));
}

proof fn lemma_wet_ranged(
    t: TreeV,
    hw: Map<ClientId, u64>,
    start: RangeAnchor,
    end: RangeAnchor,
    payload: RangedInitV,
    name: Option<Seq<u8>>,
    stamp: Stamp,
)
    ensures
        wet(t, hw).ranged_create(start, end, payload, name, stamp) == wet(
            t.ranged_create(start, end, payload, name, stamp),
            hw,
        ),
{
    reveal(TreeV::ranged_create);
    reveal(TreeV::with_payload);
    let id = crate::identity::spec_ranged_id(stamp);
    if let RangedInitV::Composite(kind) = payload {
        if let Some(c) = TreeV::payload_container(kind) {
            lemma_wet_registered(t, hw, crate::identity::spec_payload_id(id, kind), c);
        }
    }
}

/// An op reads none of the figures, and raises them by its own reservation.
pub(crate) proof fn lemma_wet_kind(
    t: TreeV,
    hw: Map<ClientId, u64>,
    target: ElementId,
    kind: OpKindV,
    stamp: Stamp,
    author: ClientId,
)
    ensures
        wet(t, hw).apply_kind(target, kind, stamp, author) == wet(
            t.apply_kind(target, kind, stamp, author),
            raised(hw, stamp, spec_span(kind)),
        ),
{
    let n = spec_span(kind);
    lemma_record(wet(t, hw), stamp, n);
    lemma_record(t, stamp, n);
    let low = t.record(stamp, n);
    let to = raised(hw, stamp, n);
    assert(wet(t, hw).record(stamp, n) == wet(low, to));
    match kind {
        OpKindV::ListInsert { value, anchor } => lemma_wet_lists(
            low,
            to,
            target,
            stamp,
            ElementV::Scalar(value),
            anchor,
            stamp,
        ),
        OpKindV::ListDelete { id } => lemma_wet_lists(
            low,
            to,
            target,
            stamp,
            arbitrary(),
            arbitrary(),
            id,
        ),
        OpKindV::XmlInsertChild { tag, anchor } => lemma_wet_insert_child(
            low,
            to,
            target,
            tag,
            anchor,
            stamp,
        ),
        OpKindV::XmlMove { node, anchor } => lemma_wet_move(low, to, target, node, anchor, stamp),
        OpKindV::XmlReveal { node, tag } => lemma_wet_reveal(low, to, node, tag),
        OpKindV::RangedCreate { start, end, payload, name } => lemma_wet_ranged(
            low,
            to,
            start,
            end,
            payload,
            name,
            stamp,
        ),
        OpKindV::RangedSetPayload { .. } => {
            reveal(TreeV::ranged_set);
        },
        OpKindV::RangedDelete { .. } => {
            reveal(TreeV::ranged_delete);
        },
        OpKindV::AclGrant { .. } => {
            reveal(TreeV::acl_grant);
        },
        OpKindV::AclRevoke { .. } => {
            reveal(TreeV::acl_revoke);
        },
        OpKindV::TextInsert { .. } => {},
        OpKindV::TextDelete { .. } => {},
        OpKindV::MapCreate { key } => lemma_wet_create(
            low,
            to,
            target,
            key,
            stamp,
            ContainerV::LwwMap,
        ),
        OpKindV::ListCreate { key } => lemma_wet_create(
            low,
            to,
            target,
            key,
            stamp,
            ContainerV::List,
        ),
        OpKindV::TextCreate { key } => lemma_wet_create(
            low,
            to,
            target,
            key,
            stamp,
            ContainerV::Text,
        ),
        OpKindV::XmlElementCreate { key, tag } => lemma_wet_create(
            low,
            to,
            target,
            key,
            stamp,
            ContainerV::XmlElement(tag),
        ),
        OpKindV::XmlFragmentCreate { key } => lemma_wet_create(
            low,
            to,
            target,
            key,
            stamp,
            ContainerV::XmlFragment,
        ),
        OpKindV::CounterInc { key, amount } => lemma_wet_count(
            low,
            to,
            target,
            key,
            author,
            amount,
            true,
            stamp,
        ),
        OpKindV::CounterDec { key, amount } => lemma_wet_count(
            low,
            to,
            target,
            key,
            author,
            amount,
            false,
            stamp,
        ),
        OpKindV::MapSet { key, value } => lemma_wet_slot_ops(low, to, target, key, value, stamp),
        OpKindV::MapDelete { key } => lemma_wet_slot_ops(
            low,
            to,
            target,
            key,
            arbitrary(),
            stamp,
        ),
        OpKindV::RegisterSet { key, value } => lemma_wet_slot_ops(
            low,
            to,
            target,
            key,
            value,
            stamp,
        ),
    }
}

proof fn lemma_wet_leads(t: TreeV, hw: Map<ClientId, u64>, id: ElementId, fuel: nat)
    ensures
        wet(t, hw).leads_to_root(id, false, fuel) == t.leads_to_root(id, false, fuel),
    decreases fuel,
{
    if fuel > 0 {
        if let Some(p) = t.holder(id) {
            lemma_wet_leads(t, hw, p, (fuel - 1) as nat);
        }
    }
}

pub(crate) proof fn lemma_wet_ready(t: TreeV, hw: Map<ClientId, u64>, op: OpV)
    ensures
        wet(t, hw).ready(op) == t.ready(op),
{
    lemma_wet_leads(t, hw, op.target, t.parents.dom().len() + 2);
}

// --- an op that came too early ---

/// Nothing waits: there is nothing to drain.
pub(crate) proof fn lemma_nothing_waits(d: DocV)
    requires
        d.buffer.len() == 0,
    ensures
        d.drained() == d,
{
    reveal(DocV::drained);
    assert(d.drained_plain() == d);
    assert(first_complete(d.buffer, 0) is None);
}

/// The one op that waits can apply: draining applies it.
proof fn lemma_one_waits(d: DocV, op: OpV)
    requires
        d.buffer == seq![op],
        op.tx is None,
        d.tree.ready(op),
    ensures
        d.drained() == (DocV { buffer: Seq::empty(), ..d }).applied(op),
{
    reveal(DocV::drained);
    assert(d.buffer[0] == op);
    assert(d.first_ready(0) == Some(0nat));
    assert(d.buffer.remove(0) =~= Seq::empty());
    let e = (DocV { buffer: Seq::empty(), ..d }).applied(op);
    assert(e.buffer.len() == 0);
    assert(e.first_ready(0) is None);
    assert(e.drained_plain() == e);
    assert(d.drained_plain() == e.drained_plain());
    assert(first_complete(e.buffer, 0) is None);
}

/// Out-of-order delivery converges: an op that comes before what it waits on is held, and
/// lands as if the two had come in turn.
pub proof fn law_early_ops_land_in_turn(d: DocV, first: OpV, early: OpV)
    requires
        d.buffer.len() == 0,
        admissible(first),
        admissible(early),
        first.id != early.id,
        !d.has_op(first.id),
        !d.has_op(early.id),
        first.tx is None,
        early.tx is None,
        d.tree.ready(first),
        !d.tree.ready(early),
        d.applied(first).tree.ready(early),
    ensures
        d.with_op(early).buffer == seq![early],
        d.with_op(early).with_op(first) == d.with_op(first).with_op(early),
        d.with_op(first).with_op(early).seen == d.seen.insert(first.id).insert(early.id),
{
    let m = spec_span(first.kind);
    let n = spec_span(early.kind);
    // In turn.
    let a = d.applied(first);
    lemma_nothing_waits(a);
    assert(d.with_op(first) == a);
    let ab = a.applied(early);
    lemma_nothing_waits(ab);
    assert(!a.has_op(early.id));
    assert(a.with_op(early) == ab);
    // Too early.
    let h = d.held(early);
    assert(d.with_op(early) == h);
    assert(h.buffer =~= seq![early]);
    assert(!h.has_op(first.id)) by {
        if holds_op(h.buffer, first.id) {
            let i = choose|i: int| 0 <= i < h.buffer.len() && (#[trigger] h.buffer[i]).id == first.id;
            assert(h.buffer[i] == early);
        }
    }
    lemma_record(d.tree, early.stamp, n);
    let hw = raised(d.tree.high_water, early.stamp, n);
    lemma_wet_ready(d.tree, hw, first);
    let ha = h.applied(first);
    assert(h.with_op(first) == ha.drained());
    lemma_wet_kind(d.tree, hw, first.target, first.kind, first.stamp, first.id.client);
    let up = raised(hw, first.stamp, m);
    assert(ha.tree == wet(a.tree, up));
    lemma_wet_ready(a.tree, up, early);
    assert(ha.buffer =~= seq![early]);
    lemma_one_waits(ha, early);
    let e = DocV { buffer: Seq::empty(), ..ha };
    lemma_wet_kind(a.tree, up, early.target, early.kind, early.stamp, early.id.client);
    // The figures rise by the same reservations.
    lemma_raised(d.tree.high_water, early.stamp, n, first.stamp, m);
    let base = d.tree.high_water;
    let once = raised(base, first.stamp, m);
    assert(up == raised(once, early.stamp, n));
    lemma_raised(once, early.stamp, n, early.stamp, n);
    lemma_wet_kind(d.tree, base, first.target, first.kind, first.stamp, first.id.client);
    assert(wet(d.tree, base) == d.tree);
    assert(a.tree.high_water == once);
    lemma_wet_kind(a.tree, once, early.target, early.kind, early.stamp, early.id.client);
    assert(wet(a.tree, once) == a.tree);
    assert(e.applied(early).tree == ab.tree);
    assert(d.buffer =~= Seq::empty());
    assert(e.applied(early) == ab);
}

// --- groups ---

/// Nothing in the buffer applies on its own, and no group there is whole: draining does
/// nothing.
proof fn lemma_one_member_waits(d: DocV, op: OpV, tx: Tx)
    requires
        d.buffer == seq![op],
        op.tx == Some(tx),
        tx.count > 1,
    ensures
        d.drained() == d,
{
    reveal(DocV::drained);
    assert(d.buffer[0] == op);
    assert(d.first_ready(1) is None);
    assert(d.first_ready(0) is None);
    assert(d.drained_plain() == d);
    let key = group_of(op)->Some_0;
    assert(d.buffer.drop_last() =~= Seq::empty());
    assert(members_of(d.buffer, key) =~= seq![op]) by {
        assert(members_of(Seq::<OpV>::empty(), key) =~= Seq::empty());
    }
    assert(!complete_at(d.buffer, 0));
    assert(first_complete(d.buffer, 1) is None);
    assert(first_complete(d.buffer, 0) is None);
}

/// Two members that make their group whole commit in order of sequence number, whichever
/// came first.
proof fn lemma_group_commits(d: DocV, x: OpV, y: OpV, a: OpV, b: OpV, tx: Tx)
    requires
        d.buffer == seq![x, y],
        (x == a && y == b) || (x == b && y == a),
        a.tx == Some(tx),
        b.tx == Some(tx),
        tx.count == 2,
        a.id.client == b.id.client,
        a.id.seq < b.id.seq,
        !d.resolved.contains(GroupKey { client: a.id.client, tx: tx.id }),
    ensures
        ({
            let key = GroupKey { client: a.id.client, tx: tx.id };
            let e = DocV { buffer: Seq::empty(), resolved: d.resolved.insert(key), ..d };
            d.drained() == e.with_member(a).with_member(b).drained()
        }),
{
    reveal(DocV::drained);
    let key = GroupKey { client: a.id.client, tx: tx.id };
    let none = Seq::<OpV>::empty();
    assert(d.buffer[0] == x && d.buffer[1] == y);
    assert(d.first_ready(2) is None);
    assert(d.first_ready(1) is None);
    assert(d.first_ready(0) is None);
    assert(d.drained_plain() == d);
    assert(group_of(x) == Some(key) && group_of(y) == Some(key));
    assert(d.buffer.drop_last() =~= seq![x]);
    assert(seq![x].drop_last() =~= none);
    assert(members_of(none, key) =~= none);
    assert(members_of(seq![x], key) =~= seq![x]);
    assert(members_of(d.buffer, key) =~= seq![x, y]);
    assert(complete_at(d.buffer, 0));
    assert(first_complete(d.buffer, 0) == Some(0nat));
    assert(others_of(none, key) =~= none);
    assert(others_of(seq![x], key) =~= none);
    assert(others_of(d.buffer, key) =~= none);
    let m = seq![x, y];
    assert(m.drop_last() =~= seq![x]);
    assert(by_seq(none) =~= none);
    assert(by_seq(seq![x]) =~= seq![x]);
    assert(by_seq(m) =~= seq![a, b]) by {
        if x == b {
            assert(put_by_seq(none, a) =~= seq![a]);
            assert(seq![b].drop_last() =~= none);
            assert(put_by_seq(seq![b], a) =~= seq![a, b]);
        }
    }
    let e = DocV { buffer: none, resolved: d.resolved.insert(key), ..d };
    let c = DocV { buffer: others_of(d.buffer, key), ..d };
    assert(untagged(none, d.resolved.insert(key)) =~= none);
    assert(c.with_resolved(key) == e);
    let q = seq![a, b];
    assert(q.drop_last() =~= seq![a]);
    assert(seq![a].drop_last() =~= none);
    assert(e.with_members(none) == e);
    assert(e.with_members(seq![a]) == e.with_member(a));
    assert(e.with_members(q) == e.with_member(a).with_member(b));
}

/// A group lands whole: while a member is missing nothing of it applies, and once it is
/// all here it lands in order of sequence number, whichever member came first.
pub proof fn law_a_group_lands_whole(d: DocV, a: OpV, b: OpV, tx: Tx)
    requires
        d.buffer.len() == 0,
        admissible(a),
        admissible(b),
        !d.has_op(a.id),
        !d.has_op(b.id),
        a.tx == Some(tx),
        b.tx == Some(tx),
        tx.count == 2,
        a.id.client == b.id.client,
        a.id.seq < b.id.seq,
        !d.resolved.contains(GroupKey { client: a.id.client, tx: tx.id }),
    ensures
        d.with_op(a).seen == d.seen,
        d.with_op(b).seen == d.seen,
        d.with_op(a).with_op(b) == d.with_op(b).with_op(a),
{
    let m = spec_span(a.kind);
    let n = spec_span(b.kind);
    let x = d.held(a);
    let y = d.held(b);
    assert(x.buffer =~= seq![a]);
    assert(y.buffer =~= seq![b]);
    lemma_one_member_waits(x, a, tx);
    lemma_one_member_waits(y, b, tx);
    assert(d.with_op(a) == x);
    assert(d.with_op(b) == y);
    let xy = x.held(b);
    let yx = y.held(a);
    assert(xy.buffer =~= seq![a, b]);
    assert(yx.buffer =~= seq![b, a]);
    assert(!x.has_op(b.id)) by {
        if holds_op(x.buffer, b.id) {
            let i = choose|i: int| 0 <= i < x.buffer.len() && (#[trigger] x.buffer[i]).id == b.id;
            assert(x.buffer[i] == a);
        }
    }
    assert(!y.has_op(a.id)) by {
        if holds_op(y.buffer, a.id) {
            let i = choose|i: int| 0 <= i < y.buffer.len() && (#[trigger] y.buffer[i]).id == a.id;
            assert(y.buffer[i] == b);
        }
    }
    assert(x.with_op(b) == xy.drained());
    assert(y.with_op(a) == yx.drained());
    lemma_group_commits(xy, a, b, a, b, tx);
    lemma_group_commits(yx, b, a, a, b, tx);
    // The figures rise by the same reservations.
    lemma_record(d.tree, a.stamp, m);
    lemma_record(x.tree, b.stamp, n);
    lemma_record(d.tree, b.stamp, n);
    lemma_record(y.tree, a.stamp, m);
    lemma_raised(d.tree.high_water, a.stamp, m, b.stamp, n);
    assert(xy.tree == yx.tree);
}

// --- clocks ---

/// Partitions are causally independent: an op in one leaves the clock of every other
/// alone, and no clock ever goes back.
pub proof fn law_partitions_keep_their_own_clocks(d: DocV, op: OpV, zone: Option<u32>)
    ensures
        zone != op.zone ==> d.applied(op).clock(zone) == d.clock(zone),
        d.applied(op).clock(zone) >= d.clock(zone),
        d.clock(op.zone) < op.stamp.lamport && admissible(op) && op.stamp.lamport
            <= LAMPORT_WIRE_CEILING ==> d.applied(op).clock(op.zone) >= op.stamp.lamport,
{
}

// --- claims and orphans ---

/// Of two nodes that claim one placement exactly one outranks the other, so who keeps it
/// is a function of the two alone.
pub proof fn law_a_claim_has_one_winner(p: Placement, a: ElementId, b: ElementId)
    requires
        a != b,
    ensures
        TreeV::outranks(p, a, b) != TreeV::outranks(p, b, a),
{
    assert(a.bits != b.bits);
}

/// A slot that holds a scalar, or nothing, orphans nothing.
pub proof fn law_scalars_are_never_orphaned(
    t: TreeV,
    map: ElementId,
    key: Seq<u8>,
    v: ScalarV,
    stamp: Stamp,
)
    requires
        t.maps.dom().contains(map),
        crate::map::live_value(t.slot(map, key)) matches Some(e) ==> e is Scalar,
    ensures
        t.map_set(map, key, v, stamp).orphans == t.orphans,
        t.map_delete(map, key, stamp).orphans == t.orphans,
        t.register_set(map, key, v, stamp).orphans == t.orphans,
{
    reveal(TreeV::map_set);
    reveal(TreeV::map_delete);
    reveal(TreeV::register_set);
    reveal(TreeV::with_evicted);
    reveal(TreeV::with_orphan);
    reveal(TreeV::with_displaced);
}

} // verus!
