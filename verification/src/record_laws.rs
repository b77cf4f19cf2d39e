//! The record of published stamps always dominates the stamps its own content carries.

use crate::anchor::Anchor;
use crate::annot::{PayloadV, Placement, RangedEntryV};
use crate::clientid::ClientId;
use crate::converge::{lemma_record, raised, wet};
use crate::doc::DocV;
use crate::element::ElementV;
use crate::elementid::{derived_id, ElementId, ElementKind};
use crate::floor::slot_holds;
use crate::identity::{admissible, spec_span};
use crate::list::ListV;
use crate::map::{
    live_value, register_evicts, set_evicts, slot_delete, slot_set, slot_set_register, slot_wins,
    MapV, SlotV,
};
use crate::op::{OpKindV, OpV};
use crate::ranged::{RangeAnchor, RangedInitV};
use crate::scalar::ScalarV;
use crate::stamp::{Stamp, LAMPORT_STATE_CEILING};
use crate::table::ordered;
use crate::text::{insert_upto, text_delete};
use crate::tree::{without_place, Claim, ContainerV, TreeV};
use crate::treemove::link_of;
use crate::xml::node_children_id;
use vstd::prelude::*;

verus! {

impl TreeV {
    /// Whether the content carries a stamp: of something held, or of a move.
    pub open spec fn stamped(self, x: Stamp) -> bool {
        self.holds_stamp(x) || self.moves.log.dom().contains(x)
    }

    /// Whether the record dominates the content. A zero says nothing.
    pub open spec fn dominated(self) -> bool {
        forall|x: Stamp| #[trigger]
            self.stamped(x) && x.lamport > 0 ==> self.high_water.dom().contains(x.client)
                && self.high_water[x.client] >= x.lamport
    }

    /// Whether no figure is past what a snapshot may carry.
    pub open spec fn bounded(self) -> bool {
        forall|c: ClientId| #[trigger]
            self.high_water.dom().contains(c) ==> self.high_water[c] <= LAMPORT_STATE_CEILING
    }
}

// --- no new stamps but some ---

spec fn maps_fewer(a: Map<ElementId, MapV>, b: Map<ElementId, MapV>, r: Set<Stamp>) -> bool {
    forall|m: ElementId, k: Seq<u8>, x: Stamp|
        #![trigger a[m].slots.dom().contains(k), r.contains(x)]
        a.dom().contains(m) && a[m].slots.dom().contains(k) && slot_holds(a[m].slots[k], x)
            ==> r.contains(x) || (b.dom().contains(m) && b[m].slots.dom().contains(k)
            && slot_holds(b[m].slots[k], x))
}

spec fn seqs_fewer(a: Map<ElementId, ListV>, b: Map<ElementId, ListV>, r: Set<Stamp>) -> bool {
    forall|l: ElementId, x: Stamp| #[trigger]
        a[l].places.dom().contains(x) && a.dom().contains(l) ==> r.contains(x) || (
        b.dom().contains(l) && b[l].places.dom().contains(x))
}

spec fn note_stamp(e: RangedEntryV) -> Option<Stamp> {
    match e.payload {
        PayloadV::Scalar { stamp, .. } => Some(stamp),
        PayloadV::Composite { .. } => None,
    }
}

spec fn notes_fewer(
    a: Map<ElementId, RangedEntryV>,
    b: Map<ElementId, RangedEntryV>,
    r: Set<Stamp>,
) -> bool {
    forall|n: ElementId| #[trigger]
        a.dom().contains(n) ==> (note_stamp(a[n]) matches Some(x) ==> r.contains(x) || (
        b.dom().contains(n) && note_stamp(b[n]) == Some(x)))
}

spec fn places_fewer(
    a: Map<ElementId, Seq<Placement>>,
    b: Map<ElementId, Seq<Placement>>,
    r: Set<Stamp>,
) -> bool {
    forall|n: ElementId, p: Placement| #[trigger]
        a[n].contains(p) && a.dom().contains(n) ==> r.contains(p.stamp) || (b.dom().contains(n)
            && b[n].contains(p))
}

/// Whether the one state carries no stamps that the other does not, but for some.
spec fn fewer(a: TreeV, b: TreeV, r: Set<Stamp>) -> bool {
    &&& maps_fewer(a.maps, b.maps, r)
    &&& seqs_fewer(a.lists, b.lists, r)
    &&& seqs_fewer(a.texts, b.texts, r)
    &&& notes_fewer(a.ranged, b.ranged, r)
    &&& places_fewer(a.placements, b.placements, r)
    &&& forall|x: Stamp| #[trigger]
        a.moves.log.dom().contains(x) ==> r.contains(x) || b.moves.log.dom().contains(x)
}

proof fn lemma_chain(a: TreeV, b: TreeV, c: TreeV, r: Set<Stamp>)
    requires
        fewer(a, b, r),
        fewer(b, c, r),
    ensures
        fewer(a, c, r),
{
}

/// Fewer stamps carried, pointwise, are fewer stamps carried.
proof fn lemma_fewer(a: TreeV, b: TreeV, r: Set<Stamp>, x: Stamp)
    requires
        fewer(a, b, r),
        a.stamped(x),
    ensures
        b.stamped(x) || r.contains(x),
{
    if !r.contains(x) && !a.moves.log.dom().contains(x) {
        if TreeV::sequence_holds(a.lists, x) {
            let l = choose|l: ElementId| #[trigger]
                a.lists.dom().contains(l) && a.lists[l].places.dom().contains(x);
            assert(b.lists.dom().contains(l) && b.lists[l].places.dom().contains(x));
        } else if TreeV::sequence_holds(a.texts, x) {
            let l = choose|l: ElementId| #[trigger]
                a.texts.dom().contains(l) && a.texts[l].places.dom().contains(x);
            assert(b.texts.dom().contains(l) && b.texts[l].places.dom().contains(x));
        } else if exists|m: ElementId, k: Seq<u8>|
            a.maps.dom().contains(m) && #[trigger] a.maps[m].slots.dom().contains(k) && slot_holds(
                a.maps[m].slots[k],
                x,
            ) {
            let (m, k) = choose|m: ElementId, k: Seq<u8>|
                a.maps.dom().contains(m) && #[trigger] a.maps[m].slots.dom().contains(k)
                    && slot_holds(a.maps[m].slots[k], x);
            assert(b.maps.dom().contains(m) && b.maps[m].slots.dom().contains(k));
        } else if exists|n: ElementId| #[trigger]
            a.ranged.dom().contains(n) && (a.ranged[n].payload matches PayloadV::Scalar {
                stamp,
                ..
            } && stamp == x) {
            let n = choose|n: ElementId| #[trigger]
                a.ranged.dom().contains(n) && (a.ranged[n].payload matches PayloadV::Scalar {
                    stamp,
                    ..
                } && stamp == x);
            assert(note_stamp(a.ranged[n]) == Some(x));
            assert(b.ranged.dom().contains(n) && note_stamp(b.ranged[n]) == Some(x));
        } else {
            let (n, i) = choose|n: ElementId, i: int|
                a.placements.dom().contains(n) && 0 <= i < a.placements[n].len() && (
                #[trigger] a.placements[n][i]).stamp == x;
            let p = a.placements[n][i];
            assert(a.placements[n].contains(p));
            assert(b.placements[n].contains(p));
            let j = b.placements[n].index_of(p);
            assert(b.placements[n][j].stamp == x);
        }
    }
}

proof fn lemma_displaced_stamps(t: TreeV, e: ElementV, to: bool, r: Set<Stamp>)
    ensures
        fewer(t.with_displaced(e, to), t, r),
{
    reveal(TreeV::with_displaced);
}

proof fn lemma_evicted_stamps(
    t: TreeV,
    prior: Option<ElementV>,
    out: Option<ElementV>,
    r: Set<Stamp>,
)
    ensures
        fewer(t.with_evicted(out), t, r),
        fewer(t.with_orphan(prior, out), t, r),
{
    reveal(TreeV::with_evicted);
    reveal(TreeV::with_orphan);
    if let Some(e) = out {
        lemma_displaced_stamps(t, e, true, r);
    }
}

/// A slot replaced by one that carries no stamps its own did not, but for some.
proof fn lemma_slot_stamps(t: TreeV, map: ElementId, key: Seq<u8>, s: SlotV, r: Set<Stamp>)
    requires
        forall|x: Stamp| #[trigger]
            slot_holds(s, x) ==> r.contains(x) || (t.slot(map, key) matches Some(old_slot)
                && slot_holds(old_slot, x)),
        t.maps.dom().contains(map),
    ensures
        fewer(t.with_slot(map, key, s), t, r),
{
}

proof fn lemma_slot_op_stamps(
    t: TreeV,
    map: ElementId,
    key: Seq<u8>,
    v: ScalarV,
    stamp: Stamp,
    r: Set<Stamp>,
)
    requires
        r.contains(stamp),
    ensures
        fewer(t.map_set(map, key, v, stamp), t, r),
        fewer(t.map_delete(map, key, stamp), t, r),
        fewer(t.register_set(map, key, v, stamp), t, r),
{
    reveal(TreeV::map_set);
    reveal(TreeV::map_delete);
    reveal(TreeV::register_set);
    if t.maps.dom().contains(map) {
        let s = t.slot(map, key);
        let prior = live_value(s);
        let e = ElementV::Scalar(v);
        let out = set_evicts(s, e, stamp);
        lemma_after_slot(t, map, key, slot_set(s, e, stamp), prior, out, r);
        let out = if slot_wins(s, stamp) {
            prior
        } else {
            None
        };
        lemma_after_slot(t, map, key, slot_delete(s, stamp), prior, out, r);
        let id = derived_id(t.maps[map].id, key, ElementKind::Register);
        let out = register_evicts(s, stamp);
        lemma_after_slot(t, map, key, slot_set_register(s, id, v, stamp), prior, out, r);
    }
}

proof fn lemma_after_slot(
    t: TreeV,
    map: ElementId,
    key: Seq<u8>,
    s: SlotV,
    prior: Option<ElementV>,
    out: Option<ElementV>,
    r: Set<Stamp>,
)
    requires
        forall|x: Stamp| #[trigger]
            slot_holds(s, x) ==> r.contains(x) || (t.slot(map, key) matches Some(old_slot)
                && slot_holds(old_slot, x)),
        t.maps.dom().contains(map),
    ensures
        fewer(t.with_slot(map, key, s).with_evicted(out).with_orphan(prior, out), t, r),
{
    lemma_slot_stamps(t, map, key, s, r);
    let a = t.with_slot(map, key, s);
    lemma_evicted_stamps(a, prior, out, r);
    let b = a.with_evicted(out);
    lemma_evicted_stamps(b, prior, out, r);
    lemma_chain(b, a, t, r);
    lemma_chain(b.with_orphan(prior, out), b, t, r);
}

proof fn lemma_install_stamps(
    t: TreeV,
    map: ElementId,
    key: Seq<u8>,
    e: ElementV,
    stamp: Stamp,
    r: Set<Stamp>,
)
    requires
        r.contains(stamp),
        t.maps.dom().contains(map),
        !(e is Register),
    ensures
        fewer(t.install_handle(map, key, e, stamp), t, r),
{
    reveal(TreeV::install_handle);
    let s = t.slot(map, key);
    let slot = slot_set(s, e, stamp);
    let out = set_evicts(s, e, stamp);
    let prior = live_value(s);
    let won = slot.value matches Some(v) && v.same_handle(e);
    lemma_after_slot(t, map, key, slot, prior, out, r);
    let a = t.with_slot(map, key, slot).with_evicted(out).with_orphan(prior, out);
    lemma_displaced_stamps(a, e, !won, r);
    lemma_chain(a.with_displaced(e, !won), a, t, r);
}

proof fn lemma_registered_stamps(t: TreeV, id: ElementId, c: ContainerV, r: Set<Stamp>)
    ensures
        fewer(t.with_registered(id, c), t, r),
        t.maps.dom().subset_of(t.with_registered(id, c).maps.dom()),
{
    reveal(TreeV::with_registered);
}

proof fn lemma_create_stamps(
    t: TreeV,
    map: ElementId,
    key: Seq<u8>,
    stamp: Stamp,
    c: ContainerV,
    r: Set<Stamp>,
)
    requires
        r.contains(stamp),
    ensures
        fewer(t.create_container(map, key, stamp, c), t, r),
{
    reveal(TreeV::create_container);
    if t.maps.dom().contains(map) {
        let child = c.child_id(map, key);
        lemma_registered_stamps(t, child, c, r);
        let a = t.with_registered(child, c);
        lemma_install_stamps(a, map, key, c.handle(child), stamp, r);
        let b = a.install_handle(map, key, c.handle(child), stamp);
        lemma_chain(b, a, t, r);
        assert(fewer(b.with_link(child, map), b, r));
        lemma_chain(b.with_link(child, map), b, t, r);
    }
}

proof fn lemma_count_stamps(
    t: TreeV,
    map: ElementId,
    key: Seq<u8>,
    author: ClientId,
    amount: u32,
    up: bool,
    stamp: Stamp,
    r: Set<Stamp>,
)
    requires
        r.contains(stamp),
    ensures
        fewer(t.count(map, key, author, amount, up, stamp), t, r),
{
    reveal(TreeV::count);
    if t.maps.dom().contains(map) {
        let id = derived_id(map, key, ElementKind::Counter);
        let a = TreeV {
            counters: crate::commute::counted(t.counters, id, author, amount, up),
            ..t
        };
        assert(fewer(a, t, r));
        lemma_install_stamps(a, map, key, ElementV::Counter(id), stamp, r);
        lemma_chain(a.install_handle(map, key, ElementV::Counter(id), stamp), a, t, r);
    }
}

// --- settling ---

proof fn lemma_only_stamps(
    t: TreeV,
    places: Seq<Placement>,
    list: ElementId,
    live: Option<Stamp>,
    r: Set<Stamp>,
)
    ensures
        fewer(t.with_only(places, list, live), t, r),
    decreases places.len(),
{
    if places.len() > 0 {
        lemma_only_stamps(t, places.drop_last(), list, live, r);
        let a = t.with_only(places.drop_last(), list, live);
        let b = t.with_only(places, list, live);
        assert(fewer(b, a, r));
        lemma_chain(b, a, t, r);
    }
}

proof fn lemma_settle_stamps(
    t: TreeV,
    tree: Map<ElementId, ElementId>,
    nodes: Seq<ElementId>,
    r: Set<Stamp>,
)
    ensures
        fewer(t.settle_all(tree, nodes), t, r),
    decreases nodes.len(),
{
    reveal(TreeV::settle);
    if nodes.len() > 0 {
        lemma_settle_stamps(t, tree, nodes.drop_last(), r);
        let a = t.settle_all(tree, nodes.drop_last());
        let b = t.settle_all(tree, nodes);
        let node = nodes.last();
        if tree.dom().contains(node) {
            let list = node_children_id(tree[node]);
            let places = a.placements[node];
            let live = if a.any_tombstoned(places) {
                None
            } else {
                crate::tree::latest_in(places, list)
            };
            lemma_only_stamps(a, places, list, live, r);
            assert(fewer(b, a.with_only(places, list, live), r));
            lemma_chain(b, a.with_only(places, list, live), a, r);
        }
        lemma_chain(b, a, t, r);
    }
}

proof fn lemma_refold_stamps(t: TreeV, r: Set<Stamp>)
    ensures
        fewer(t.refold(), t, r),
{
    reveal(TreeV::refold);
    lemma_settle_stamps(t, t.moves.tree(), ordered::<ElementId>(t.placements.dom()), r);
}

// --- sequences ---

proof fn lemma_list_stamps(
    t: TreeV,
    list: ElementId,
    stamp: Stamp,
    v: ElementV,
    anchor: Anchor,
    id: Stamp,
    r: Set<Stamp>,
)
    requires
        r.contains(stamp),
    ensures
        fewer(t.list_insert(list, stamp, v, anchor), t, r),
        fewer(t.list_delete(list, id), t, r),
{
    reveal(TreeV::list_insert);
    reveal(TreeV::list_delete);
    let a = if t.lists.dom().contains(list) {
        t.with_list(list, crate::list::list_delete(t.lists[list], id))
    } else {
        t
    };
    assert(fewer(a, t, r));
    lemma_refold_stamps(a, r);
    lemma_chain(a.refold(), a, t, r);
}

proof fn lemma_run_stamps(
    l: ListV,
    stamp: Stamp,
    s: Seq<char>,
    anchor: Anchor,
    n: nat,
    x: Stamp,
)
    requires
        n <= s.len(),
        stamp.lamport + s.len() - 1 <= LAMPORT_STATE_CEILING,
        insert_upto(l, stamp, s, anchor, n).places.dom().contains(x),
    ensures
        l.places.dom().contains(x) || (x.client == stamp.client && stamp.lamport <= x.lamport
            < stamp.lamport + n),
    decreases n,
{
    if n > 0 {
        if insert_upto(l, stamp, s, anchor, (n - 1) as nat).places.dom().contains(x) {
            lemma_run_stamps(l, stamp, s, anchor, (n - 1) as nat, x);
        }
    }
}

proof fn lemma_drops_stamps(l: ListV, ids: Seq<Stamp>)
    ensures
        text_delete(l, ids).places == l.places,
    decreases ids.len(),
{
    if ids.len() > 0 {
        lemma_drops_stamps(l, ids.drop_last());
    }
}

// --- movable nodes ---

proof fn lemma_without_place(places: Seq<Placement>, p: Placement, q: Placement)
    requires
        without_place(places, p).contains(q),
    ensures
        places.contains(q),
    decreases places.len(),
{
    if places.len() > 0 {
        let h = without_place(places.drop_last(), p);
        if h.contains(q) {
            lemma_without_place(places.drop_last(), p, q);
            let i = places.drop_last().index_of(q);
            assert(places[i] == q);
        } else {
            let i = without_place(places, p).index_of(q);
            assert(q == places.last());
            assert(places[places.len() - 1] == q);
        }
    }
}

proof fn lemma_claim_stamps(t: TreeV, p: Placement, node: ElementId, r: Set<Stamp>)
    ensures
        fewer(t.with_claim(p, node), t, r),
{
    reveal(TreeV::with_claim);
    reveal(TreeV::with_placement_evicted);
    if t.claim_of(p, node) == Claim::Evicted {
        let held = t.placement_index[p];
        let a = t.with_placement_evicted(p, held);
        assert(places_fewer(a.placements, t.placements, r)) by {
            assert forall|n: ElementId, q: Placement| #[trigger]
                a.placements[n].contains(q) && a.placements.dom().contains(n) implies r.contains(
                q.stamp,
            ) || (t.placements.dom().contains(n) && t.placements[n].contains(q)) by {
                if n == held && t.placements.dom().contains(held) {
                    lemma_without_place(t.placements[held], p, q);
                }
            }
        }
        assert(fewer(a, t, r));
    }
}

proof fn lemma_seat_stamps(
    t: TreeV,
    claim: Claim,
    p: Placement,
    e: ElementV,
    anchor: Anchor,
    r: Set<Stamp>,
)
    requires
        r.contains(p.stamp),
    ensures
        fewer(t.with_seat(claim, p, e, anchor), t, r),
{
    reveal(TreeV::with_seat);
}

proof fn lemma_placement_stamps(t: TreeV, node: ElementId, p: Placement, r: Set<Stamp>)
    requires
        r.contains(p.stamp),
    ensures
        fewer(t.with_placement(node, p), t, r),
{
    let a = t.with_placement(node, p);
    assert forall|n: ElementId, q: Placement| #[trigger]
        a.placements[n].contains(q) && a.placements.dom().contains(n) implies r.contains(q.stamp)
        || (t.placements.dom().contains(n) && t.placements[n].contains(q)) by {
        if n == node {
            let i = a.placements[n].index_of(q);
            if t.placements.dom().contains(n) && i < t.placements[n].len() {
                assert(t.placements[n][i] == q);
            }
        }
    }
}

proof fn lemma_birth_stamps(
    t: TreeV,
    claim: Claim,
    p: Placement,
    child: ElementId,
    list: ElementId,
    c: ContainerV,
    r: Set<Stamp>,
)
    requires
        r.contains(p.stamp),
    ensures
        fewer(t.with_birth_placed(claim, p, child), t, r),
        fewer(t.with_owner(list, child), t, r),
        fewer(t.with_born(list, child, c), t, r),
{
    reveal(TreeV::with_birth_placed);
    reveal(TreeV::with_owner);
    reveal(TreeV::with_born);
    lemma_registered_stamps(t, child, c, r);
    lemma_placement_stamps(t, child, p, r);
    let a = t.with_registered(child, c);
    assert(fewer(t.with_born(list, child, c), a, r));
    lemma_chain(t.with_born(list, child, c), a, t, r);
}

proof fn lemma_insert_child_stamps(
    t: TreeV,
    list: ElementId,
    tag: Option<Seq<u8>>,
    anchor: Anchor,
    stamp: Stamp,
    r: Set<Stamp>,
)
    requires
        r.contains(stamp),
    ensures
        fewer(t.insert_child(list, tag, anchor, stamp), t, r),
{
    reveal(TreeV::insert_child);
    if t.lists.dom().contains(list) {
        let c = match tag {
            Some(x) => ContainerV::XmlElement(x),
            None => ContainerV::Text,
        };
        let child = crate::identity::spec_xml_child_id(list, stamp, c.kind());
        let p = Placement { list, stamp };
        lemma_birth_stamps(t, Claim::Fresh, p, child, list, c, r);
        let t1 = t.with_born(list, child, c);
        let claim = t1.claim_of(p, child);
        lemma_claim_stamps(t1, p, child, r);
        let t2 = t1.with_claim(p, child);
        lemma_chain(t2, t1, t, r);
        lemma_seat_stamps(t2, claim, p, c.handle(child), anchor, r);
        let t3 = t2.with_seat(claim, p, c.handle(child), anchor);
        lemma_chain(t3, t2, t, r);
        lemma_birth_stamps(t3, claim, p, child, list, c, r);
        let t4 = t3.with_birth_placed(claim, p, child);
        lemma_chain(t4, t3, t, r);
        lemma_birth_stamps(t4, claim, p, child, list, c, r);
        let t5 = t4.with_owner(list, child);
        lemma_chain(t5, t4, t, r);
        lemma_refold_stamps(t5, r);
        lemma_chain(t5.refold(), t5, t, r);
    }
}

proof fn lemma_move_stamps(
    t: TreeV,
    list: ElementId,
    node: ElementId,
    anchor: Anchor,
    stamp: Stamp,
    r: Set<Stamp>,
)
    requires
        r.contains(stamp),
    ensures
        fewer(t.move_node(list, node, anchor, stamp), t, r),
{
    reveal(TreeV::move_node);
    let p = Placement { list, stamp };
    let owner = link_of(t.parents, list);
    let handle = t.node_handle(node);
    let claim = t.claim_of(p, node);
    lemma_claim_stamps(t, p, node, r);
    let t1 = t.with_claim(p, node);
    lemma_seat_stamps(t1, claim, p, handle->Some_0, anchor, r);
    let t2 = t1.with_seat(claim, p, handle->Some_0, anchor);
    lemma_chain(t2, t1, t, r);
    lemma_placement_stamps(t2, node, p, r);
    let t3 = if claim == Claim::Joined {
        t2
    } else {
        t2.with_placement(node, p)
    };
    lemma_chain(t2.with_placement(node, p), t2, t, r);
    let t4 = TreeV {
        moves: t3.moves.apply(stamp, node, owner->Some_0),
        revealed: t3.revealed.remove(node),
        ..t3
    };
    assert(fewer(t4, t3, r));
    lemma_chain(t4, t3, t, r);
    lemma_refold_stamps(t4, r);
    lemma_chain(t4.refold(), t4, t, r);
}

proof fn lemma_reveal_stamps(t: TreeV, node: ElementId, tag: Option<Seq<u8>>, r: Set<Stamp>)
    ensures
        fewer(t.reveal_node(node, tag), t, r),
{
    reveal(TreeV::reveal_node);
    let c = match tag {
        Some(x) => ContainerV::XmlElement(x),
        None => ContainerV::Text,
    };
    lemma_registered_stamps(t, node, c, r);
}

proof fn lemma_note_stamps(
    t: TreeV,
    start: RangeAnchor,
    end: RangeAnchor,
    payload: RangedInitV,
    name: Option<Seq<u8>>,
    stamp: Stamp,
    r: Set<Stamp>,
)
    requires
        r.contains(stamp),
    ensures
        fewer(t.ranged_create(start, end, payload, name, stamp), t, r),
{
    reveal(TreeV::ranged_create);
    reveal(TreeV::with_payload);
    let id = crate::identity::spec_ranged_id(stamp);
    if let RangedInitV::Composite(kind) = payload {
        if let Some(c) = TreeV::payload_container(kind) {
            let pid = crate::identity::spec_payload_id(id, kind);
            lemma_registered_stamps(t, pid, c, r);
            let a = t.with_registered(pid, c);
            let b = a.with_link(pid, id);
            assert(fewer(b, a, r));
            lemma_chain(b, a, t, r);
        }
    }
}

/// The stamps an op reserves.
pub open spec fn reserved(op: OpV) -> Set<Stamp> {
    Set::new(
        |x: Stamp|
            x.client == op.stamp.client && op.stamp.lamport <= x.lamport < op.stamp.lamport
                + spec_span(op.kind),
    )
}

/// An op adds no stamp but those it reserves.
proof fn lemma_op_stamps(t: TreeV, op: OpV)
    requires
        admissible(op),
    ensures
        fewer(t.apply_kind(op.target, op.kind, op.stamp, op.id.client), t, reserved(op)),
{
    let r = reserved(op);
    let n = spec_span(op.kind);
    lemma_record(t, op.stamp, n);
    let u = t.record(op.stamp, n);
    let out = t.apply_kind(op.target, op.kind, op.stamp, op.id.client);
    assert(fewer(u, t, r));
    let target = op.target;
    let stamp = op.stamp;
    assert(r.contains(stamp));
    match op.kind {
        OpKindV::ListInsert { value, anchor } => lemma_list_stamps(
            u,
            target,
            stamp,
            ElementV::Scalar(value),
            anchor,
            stamp,
            r,
        ),
        OpKindV::ListDelete { id } => lemma_list_stamps(
            u,
            target,
            stamp,
            arbitrary(),
            arbitrary(),
            id,
            r,
        ),
        OpKindV::XmlInsertChild { tag, anchor } => lemma_insert_child_stamps(
            u,
            target,
            tag,
            anchor,
            stamp,
            r,
        ),
        OpKindV::XmlMove { node, anchor } => lemma_move_stamps(u, target, node, anchor, stamp, r),
        OpKindV::XmlReveal { node, tag } => lemma_reveal_stamps(u, node, tag, r),
        OpKindV::RangedCreate { start, end, payload, name } => lemma_note_stamps(
            u,
            start,
            end,
            payload,
            name,
            stamp,
            r,
        ),
        OpKindV::RangedSetPayload { .. } => {
            reveal(TreeV::ranged_set);
        },
        OpKindV::RangedDelete { .. } => {
            reveal(TreeV::ranged_delete);
        },
        OpKindV::AclGrant { .. } => {
            reveal(TreeV::acl_grant);
        },
        OpKindV::AclRevoke { .. } => {
            reveal(TreeV::acl_revoke);
        },
        OpKindV::TextInsert { s, anchor } => {
            if u.texts.dom().contains(target) {
                assert forall|l: ElementId, x: Stamp| #[trigger]
                    out.texts[l].places.dom().contains(x) && out.texts.dom().contains(l) implies
                    r.contains(x) || (u.texts.dom().contains(l) && u.texts[l].places.dom().contains(
                    x,
                )) by {
                    if l == target && s.len() > 0 {
                        lemma_run_stamps(u.texts[l], stamp, s, anchor, s.len(), x);
                    }
                }
            }
        },
        OpKindV::TextDelete { ids } => {
            if u.texts.dom().contains(target) {
                lemma_drops_stamps(u.texts[target], ids);
            }
        },
        OpKindV::MapCreate { key } => lemma_create_stamps(
            u,
            target,
            key,
            stamp,
            ContainerV::LwwMap,
            r,
        ),
        OpKindV::ListCreate { key } => lemma_create_stamps(
            u,
            target,
            key,
            stamp,
            ContainerV::List,
            r,
        ),
        OpKindV::TextCreate { key } => lemma_create_stamps(
            u,
            target,
            key,
            stamp,
            ContainerV::Text,
            r,
        ),
        OpKindV::XmlElementCreate { key, tag } => lemma_create_stamps(
            u,
            target,
            key,
            stamp,
            ContainerV::XmlElement(tag),
            r,
        ),
        OpKindV::XmlFragmentCreate { key } => lemma_create_stamps(
            u,
            target,
            key,
            stamp,
            ContainerV::XmlFragment,
            r,
        ),
        OpKindV::CounterInc { key, amount } => lemma_count_stamps(
            u,
            target,
            key,
            op.id.client,
            amount,
            true,
            stamp,
            r,
        ),
        OpKindV::CounterDec { key, amount } => lemma_count_stamps(
            u,
            target,
            key,
            op.id.client,
            amount,
            false,
            stamp,
            r,
        ),
        OpKindV::MapSet { key, value } => lemma_slot_op_stamps(u, target, key, value, stamp, r),
        OpKindV::MapDelete { key } => lemma_slot_op_stamps(
            u,
            target,
            key,
            arbitrary(),
            stamp,
            r,
        ),
        OpKindV::RegisterSet { key, value } => lemma_slot_op_stamps(
            u,
            target,
            key,
            value,
            stamp,
            r,
        ),
    }
    assert(fewer(out, u, r));
    lemma_chain(out, u, t, r);
}

// --- laws ---

/// A replica's record always dominates the stamps its own content carries, and stays
/// inside what a snapshot may carry: an empty replica's does, and every op keeps it so.
pub proof fn law_the_record_dominates(d: DocV, op: OpV)
    requires
        admissible(op),
        d.tree.dominated(),
        d.tree.bounded(),
    ensures
        d.applied(op).tree.dominated(),
        d.applied(op).tree.bounded(),
        d.held(op).tree.dominated(),
        d.held(op).tree.bounded(),
{
    let t = d.tree;
    let n = spec_span(op.kind);
    let out = d.applied(op).tree;
    lemma_op_stamps(t, op);
    crate::converge::lemma_wet_kind(
        t,
        t.high_water,
        op.target,
        op.kind,
        op.stamp,
        op.id.client,
    );
    assert(wet(t, t.high_water) == t);
    let hw = raised(t.high_water, op.stamp, n);
    assert(out.high_water == hw);
    lemma_record(t, op.stamp, n);
    reveal(TreeV::record);
    assert forall|x: Stamp| #[trigger] out.stamped(x) && x.lamport > 0 implies hw.dom().contains(
        x.client,
    ) && hw[x.client] >= x.lamport by {
        lemma_fewer(out, t, reserved(op), x);
    }
    let held = d.held(op).tree;
    assert forall|x: Stamp| #[trigger] held.stamped(x) implies t.stamped(x) by {
        assert(fewer(held, t, Set::empty()));
        lemma_fewer(held, t, Set::empty(), x);
    }
}

/// An empty replica carries no stamps.
pub proof fn law_an_empty_record_dominates(client: ClientId)
    ensures
        DocV::empty(client).tree.dominated(),
        DocV::empty(client).tree.bounded(),
{
    let t = TreeV::empty();
    assert forall|x: Stamp| !#[trigger] t.stamped(x) by {}
}

} // verus!
