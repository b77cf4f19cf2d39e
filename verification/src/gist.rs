//! The gist of a state: what its ops wrote, without what displacement, settling and the
//! order of arrival make of it.

use crate::anchor::Anchor;
use crate::annot::Placement;
use crate::commute::{
    body, born, child_container, effect, lemma_writes_concat, lemma_writes_one, lemma_writes_two,
    WriteV,
};
use crate::counter::CounterV;
use crate::element::ElementV;
use crate::elementid::ElementId;
use crate::identity::{spec_span, spec_xml_child_id};
use crate::list::{list_delete, list_insert, list_set_away, ListV};
use crate::list_state::{as_written, empty_list};
use crate::map::MapV;
use crate::move_laws::loosened;
use crate::op::{OpKindV, OpV};
use crate::stamp::Stamp;
use crate::table::{lemma_ordered_exists, ordered, Key};
use crate::tree::{latest_in, ContainerV, TreeV};
use crate::treemove::{link_of, MoveEdge, MovesV};
use crate::xml::{node_attrs_id, node_children_id, XmlElementV, XmlFragment};
use vstd::prelude::*;

verus! {

/// What ops wrote: the containers with no node suppressed and nothing displaced, what
/// hangs off what but for placed nodes, which node holds which place, where nodes were
/// created, and the moves.
#[verifier::ext_equal]
pub struct GistV {
    pub tree: TreeV,
    pub log: Map<Stamp, MoveEdge>,
}

impl TreeV {
    pub open spec fn gist(self) -> GistV {
        GistV {
            tree: TreeV {
                maps: self.maps.map_values(|m: MapV| MapV { displaced: false, ..m }),
                lists: self.lists.map_values(|l: ListV| as_written(l)),
                texts: self.texts.map_values(|l: ListV| as_written(l)),
                counters: self.counters.map_values(
                    |c: CounterV| CounterV { displaced: false, ..c },
                ),
                xml_elements: self.xml_elements.map_values(
                    |x: XmlElementV| XmlElementV { displaced: false, ..x },
                ),
                xml_fragments: self.xml_fragments.map_values(
                    |x: XmlFragment| XmlFragment { displaced: false },
                ),
                parents: self.parents.remove_keys(self.placements.dom()),
                moves: MovesV { base: self.moves.base, log: Map::empty() },
                placements: Map::empty(),
                orphans: Seq::empty(),
                high_water: Map::empty(),
                ..self
            },
            log: self.moves.log,
        }
    }
}

/// The gist does not see displacement.
pub(crate) proof fn lemma_gist_plain(t: TreeV)
    ensures
        t.plain().gist() == t.gist(),
{
    let a = t.plain().gist().tree;
    let b = t.gist().tree;
    assert(a.maps =~= b.maps);
    assert forall|l: ElementId| #[trigger] t.lists.dom().contains(l) implies as_written(
        t.plain().lists[l],
    ) == as_written(t.lists[l]) by {}
    assert forall|l: ElementId| #[trigger] t.texts.dom().contains(l) implies as_written(
        t.plain().texts[l],
    ) == as_written(t.texts[l]) by {}
    assert(a.lists =~= b.lists);
    assert(a.texts =~= b.texts);
    assert(a.counters =~= b.counters);
    assert(a.xml_elements =~= b.xml_elements);
    assert(a.xml_fragments =~= b.xml_fragments);
}

/// What a gist tells of a state.
pub(crate) proof fn lemma_gist_doms(t: TreeV)
    ensures
        t.gist().tree.maps.dom() == t.maps.dom(),
        t.gist().tree.lists.dom() == t.lists.dom(),
        t.gist().tree.texts.dom() == t.texts.dom(),
        t.gist().tree.counters.dom() == t.counters.dom(),
        t.gist().tree.xml_elements.dom() == t.xml_elements.dom(),
        t.gist().tree.xml_fragments.dom() == t.xml_fragments.dom(),
        forall|m: ElementId| #[trigger]
            t.maps.dom().contains(m) ==> t.gist().tree.maps[m].slots == t.maps[m].slots
                && t.gist().tree.maps[m].id == t.maps[m].id,
        forall|l: ElementId| #[trigger]
            t.lists.dom().contains(l) ==> t.gist().tree.lists[l] == as_written(t.lists[l]),
        forall|l: ElementId| #[trigger]
            t.texts.dom().contains(l) ==> t.gist().tree.texts[l] == as_written(t.texts[l]),
{
    let g = t.gist().tree;
    assert(g.maps.dom() =~= t.maps.dom());
    assert(g.lists.dom() =~= t.lists.dom());
    assert(g.texts.dom() =~= t.texts.dom());
    assert(g.counters.dom() =~= t.counters.dom());
    assert(g.xml_elements.dom() =~= t.xml_elements.dom());
    assert(g.xml_fragments.dom() =~= t.xml_fragments.dom());
}

// --- writes ---

/// Whether a write is none that places a node.
pub open spec fn unplacing(w: WriteV) -> bool {
    match w {
        WriteV::Home { .. } => false,
        WriteV::Place { .. } => false,
        WriteV::Hold { .. } => true,
        WriteV::Await { .. } => false,
        WriteV::Placed { .. } => false,
        WriteV::Raise { .. } => false,
        _ => true,
    }
}

proof fn lemma_written_insert(l: ListV, id: Stamp, value: ElementV, anchor: Anchor)
    ensures
        as_written(list_insert(l, id, value, anchor)) == list_insert(
            as_written(l),
            id,
            value,
            anchor,
        ),
{
    assert(as_written(list_insert(l, id, value, anchor)).items =~= list_insert(
        as_written(l),
        id,
        value,
        anchor,
    ).items);
}

proof fn lemma_written_delete(l: ListV, id: Stamp)
    ensures
        as_written(list_delete(l, id)) == list_delete(as_written(l), id),
{
    assert(as_written(list_delete(l, id)).items =~= list_delete(as_written(l), id).items);
}

proof fn lemma_written_empty(id: ElementId)
    ensures
        as_written(empty_list(id)) == empty_list(id),
{
    assert(as_written(empty_list(id)).items =~= empty_list(id).items);
}

/// A write that places no node does to the gist what it does to the state.
pub(crate) proof fn lemma_gist_write(t: TreeV, w: WriteV)
    requires
        unplacing(w),
        w matches WriteV::Link { child, .. } ==> !t.placements.dom().contains(child),
    ensures
        t.write(w).gist().tree == t.gist().tree.write(w),
        t.write(w).gist().log == t.gist().log,
{
    let u = t.write(w);
    let g = t.gist().tree;
    let a = u.gist().tree;
    let b = g.write(w);
    lemma_gist_doms(t);
    lemma_gist_doms(u);
    match w {
        WriteV::ListPut { list, id, value, anchor } => {
            if t.lists.dom().contains(list) {
                lemma_written_insert(t.lists[list], id, value, anchor);
            }
        },
        WriteV::ListDrop { list, id } => {
            if t.lists.dom().contains(list) {
                lemma_written_delete(t.lists[list], id);
            }
        },
        WriteV::TextPut { text, id, value, anchor } => {
            if t.texts.dom().contains(text) {
                lemma_written_insert(t.texts[text], id, value, anchor);
            }
        },
        WriteV::TextDrop { text, id } => {
            if t.texts.dom().contains(text) {
                lemma_written_delete(t.texts[text], id);
            }
        },
        WriteV::NewList { id } => lemma_written_empty(id),
        WriteV::NewText { id } => lemma_written_empty(id),
        _ => {},
    }
    assert(a.maps =~= b.maps);
    assert(a.lists =~= b.lists);
    assert(a.texts =~= b.texts);
    assert(a.counters =~= b.counters);
    assert(a.xml_elements =~= b.xml_elements);
    assert(a.xml_fragments =~= b.xml_fragments);
    assert(a.parents =~= b.parents);
}

pub(crate) proof fn lemma_gist_writes(t: TreeV, ws: Seq<WriteV>)
    requires
        forall|i: int|
            0 <= i < ws.len() ==> unplacing(#[trigger] ws[i]) && (
            ws[i] matches WriteV::Link { child, .. } ==> !t.placements.dom().contains(child)),
    ensures
        t.writes(ws).gist().tree == t.gist().tree.writes(ws),
        t.writes(ws).gist().log == t.gist().log,
        t.writes(ws).placements == t.placements,
    decreases ws.len(),
{
    if ws.len() > 0 {
        let h = ws.drop_last();
        assert forall|i: int| 0 <= i < h.len() implies unplacing(#[trigger] h[i]) && (
        h[i] matches WriteV::Link { child, .. } ==> !t.placements.dom().contains(child)) by {
            assert(h[i] == ws[i]);
        }
        lemma_gist_writes(t, h);
        assert(ws[ws.len() - 1] == ws.last());
        lemma_gist_write(t.writes(h), ws.last());
    }
}

/// Recorded stamps do not show in a gist.
pub(crate) proof fn lemma_gist_raise(t: TreeV, s: Stamp, n: nat)
    ensures
        t.write(WriteV::Raise { stamp: s, span: n }).gist() == t.gist(),
{
    assert(t.write(WriteV::Raise { stamp: s, span: n }).gist().tree == t.gist().tree);
}

// --- settling ---

proof fn lemma_gist_away(t: TreeV, p: Placement, away: bool)
    ensures
        t.with_away(p, away).gist() == t.gist(),
        t.with_away(p, away).placements == t.placements,
        t.with_away(p, away).parents == t.parents,
{
    let u = t.with_away(p, away);
    if t.lists.dom().contains(p.list) {
        let l = t.lists[p.list];
        assert(as_written(list_set_away(l, p.stamp, away)).items =~= as_written(l).items);
        assert(u.gist().tree.lists =~= t.gist().tree.lists);
    }
}

proof fn lemma_gist_only(t: TreeV, places: Seq<Placement>, list: ElementId, live: Option<Stamp>)
    ensures
        t.with_only(places, list, live).gist() == t.gist(),
        t.with_only(places, list, live).placements == t.placements,
        t.with_only(places, list, live).parents == t.parents,
    decreases places.len(),
{
    if places.len() > 0 {
        let p = places.last();
        lemma_gist_only(t, places.drop_last(), list, live);
        lemma_gist_away(
            t.with_only(places.drop_last(), list, live),
            p,
            !(p.list == list && live == Some(p.stamp)),
        );
    }
}

/// Settling a placed node does not show in a gist, and hangs the node where it settles.
proof fn lemma_gist_settle(t: TreeV, tree: Map<ElementId, ElementId>, n: ElementId)
    requires
        t.placements.dom().contains(n),
    ensures
        t.settle(tree, n).gist() == t.gist(),
        t.settle(tree, n).placements == t.placements,
        t.settle(tree, n).moves == t.moves,
        t.settle(tree, n).parents == if tree.dom().contains(n) {
            t.parents.insert(n, node_children_id(tree[n]))
        } else {
            t.parents
        },
{
    reveal(TreeV::settle);
    if tree.dom().contains(n) {
        let list = node_children_id(tree[n]);
        let places = t.placements[n];
        let live = if t.any_tombstoned(places) {
            None
        } else {
            latest_in(places, list)
        };
        let u = t.with_only(places, list, live);
        lemma_gist_only(t, places, list, live);
        let v = TreeV { parents: u.parents.insert(n, list), ..u };
        assert(v.gist().tree.parents =~= u.gist().tree.parents);
        assert(v.gist() == u.gist());
        assert(u.moves == u.gist_moves());
        assert(t.moves == t.gist_moves());
    }
}

impl TreeV {
    /// The moves, told from the gist.
    spec fn gist_moves(self) -> MovesV {
        MovesV { base: self.gist().tree.moves.base, log: self.gist().log }
    }
}

proof fn lemma_gist_settle_all(t: TreeV, tree: Map<ElementId, ElementId>, q: Seq<ElementId>)
    requires
        forall|i: int| 0 <= i < q.len() ==> t.placements.dom().contains(#[trigger] q[i]),
    ensures
        ({
            let u = t.settle_all(tree, q);
            &&& u.gist() == t.gist()
            &&& u.placements == t.placements
            &&& u.moves == t.moves
            &&& forall|x: ElementId| #[trigger]
                link_of(u.parents, x) == if q.contains(x) && tree.dom().contains(x) {
                    Some(node_children_id(tree[x]))
                } else {
                    link_of(t.parents, x)
                }
        }),
    decreases q.len(),
{
    if q.len() > 0 {
        let h = q.drop_last();
        let n = q.last();
        assert forall|i: int| 0 <= i < h.len() implies t.placements.dom().contains(
            #[trigger] h[i],
        ) by {
            assert(h[i] == q[i]);
        }
        lemma_gist_settle_all(t, tree, h);
        assert(q[q.len() - 1] == n);
        let v = t.settle_all(tree, h);
        lemma_gist_settle(v, tree, n);
        let u = t.settle_all(tree, q);
        assert forall|x: ElementId| #[trigger] link_of(u.parents, x) == if q.contains(x)
            && tree.dom().contains(x) {
            Some(node_children_id(tree[x]))
        } else {
            link_of(t.parents, x)
        } by {
            assert(link_of(v.parents, x) == if h.contains(x) && tree.dom().contains(x) {
                Some(node_children_id(tree[x]))
            } else {
                link_of(t.parents, x)
            });
            if h.contains(x) {
                assert(q[h.index_of(x)] == x);
            }
            if q.contains(x) && x != n {
                assert(h[q.index_of(x)] == x);
            }
        }
    }
}

/// Settling everything does not show in a gist, and hangs every placed node where the
/// moves put it.
pub(crate) proof fn lemma_gist_refold(t: TreeV)
    requires
        t.placements.dom().finite(),
    ensures
        ({
            let u = t.refold();
            &&& u.gist() == t.gist()
            &&& u.placements == t.placements
            &&& u.moves == t.moves
            &&& forall|x: ElementId| #[trigger]
                link_of(u.parents, x) == if t.placements.dom().contains(x)
                    && t.moves.tree().dom().contains(x) {
                    Some(node_children_id(t.moves.tree()[x]))
                } else {
                    link_of(t.parents, x)
                }
        }),
{
    reveal(TreeV::refold);
    let q = ordered::<ElementId>(t.placements.dom());
    lemma_ordered_exists::<ElementId>(t.placements.dom());
    assert forall|i: int| 0 <= i < q.len() implies t.placements.dom().contains(#[trigger] q[i]) by {
        assert(q.to_set().contains(q[i]));
    }
    assert forall|x: ElementId| q.contains(x) <==> t.placements.dom().contains(x) by {
        assert(q.to_set().contains(x) == t.placements.dom().contains(x));
    }
    lemma_gist_settle_all(t, t.moves.tree(), q);
}

// --- what an op does to a gist ---

/// The place an op takes.
pub open spec fn place_of(op: OpV) -> Placement {
    Placement { list: op.target, stamp: op.stamp }
}

/// The child an op bears.
pub open spec fn child_of(op: OpV) -> ElementId {
    let c = child_container(op.kind->XmlInsertChild_tag);
    spec_xml_child_id(op.target, op.stamp, c.kind())
}

/// What bearing a child writes.
pub open spec fn bear_writes(op: OpV, owner: Option<ElementId>) -> Seq<WriteV> {
    let c = child_container(op.kind->XmlInsertChild_tag);
    let child = child_of(op);
    born(child, c) + seq![
        WriteV::Hold { at: place_of(op), node: child },
        WriteV::ListPut {
            list: op.target,
            id: op.stamp,
            value: c.handle(child),
            anchor: op.kind->XmlInsertChild_anchor,
        },
    ] + match owner {
        Some(o) => seq![WriteV::Base { child, parent: o }],
        None => Seq::empty(),
    }
}

/// What a move writes, but for its entry in the log.
pub open spec fn move_writes(op: OpV, handle: ElementV) -> Seq<WriteV> {
    seq![
        WriteV::Hold { at: place_of(op), node: op.kind->XmlMove_node },
        WriteV::ListPut {
            list: op.target,
            id: op.stamp,
            value: handle,
            anchor: op.kind->XmlMove_anchor,
        },
    ]
}

impl GistV {
    /// What an op writes to a state of this gist.
    pub open spec fn writes_for(self, op: OpV) -> Seq<WriteV> {
        match op.kind {
            OpKindV::XmlInsertChild { .. } => bear_writes(
                op,
                link_of(self.tree.parents, op.target),
            ),
            OpKindV::XmlMove { node, .. } => match self.tree.node_handle(node) {
                Some(h) => move_writes(op, h),
                None => Seq::empty(),
            },
            _ => body(op.target, op.kind, op.stamp, op.id.client, None),
        }
    }

    /// The log after an op.
    pub open spec fn log_after(self, op: OpV) -> Map<Stamp, MoveEdge> {
        match op.kind {
            OpKindV::XmlMove { node, .. } => match link_of(self.tree.parents, op.target) {
                Some(owner) => self.log.insert(op.stamp, MoveEdge { child: node, parent: owner }),
                None => self.log,
            },
            _ => self.log,
        }
    }

    /// The gist after an op.
    pub open spec fn after(self, op: OpV) -> GistV {
        GistV { tree: self.tree.writes(self.writes_for(op)), log: self.log_after(op) }
    }
}

/// A child borne: the gist after it is what bearing it writes.
pub(crate) proof fn lemma_gist_born(p: TreeV, op: OpV)
    requires
        op.kind is XmlInsertChild,
        !p.parents.dom().contains(child_of(op)),
        !p.placements.dom().contains(child_of(op)),
        !p.placements.dom().contains(op.target),
        op.kind->XmlInsertChild_tag is Some ==> !p.placements.dom().contains(
            node_attrs_id(child_of(op)),
        ) && !p.placements.dom().contains(node_children_id(child_of(op))) && node_attrs_id(
            child_of(op),
        ) != child_of(op) && node_children_id(child_of(op)) != child_of(op),
        p.revealed == Set::<ElementId>::empty(),
    ensures
        p.writes(effect(op, p.owner_of(op))).gist() == p.gist().after(op),
{
    let owner = p.owner_of(op);
    let c = child_container(op.kind->XmlInsertChild_tag);
    let child = child_of(op);
    let at = place_of(op);
    let b = born(child, c);
    let raise = WriteV::Raise { stamp: op.stamp, span: spec_span(op.kind) };
    let home = WriteV::Home { child, parent: op.target };
    let hold = WriteV::Hold { at, node: child };
    let put = WriteV::ListPut {
        list: op.target,
        id: op.stamp,
        value: c.handle(child),
        anchor: op.kind->XmlInsertChild_anchor,
    };
    let place = WriteV::Place { node: child, at };
    let placed = WriteV::Placed { node: child };
    let tail = match owner {
        Some(o) => seq![WriteV::Base { child, parent: o }],
        None => Seq::empty(),
    };
    let mid = seq![home, hold, put, place, placed];
    let all = effect(op, owner);
    assert(all =~= (seq![raise] + b) + (mid + tail));
    lemma_writes_concat(p, seq![raise] + b, mid + tail);
    lemma_writes_concat(p, seq![raise], b);
    lemma_writes_one(p, raise);
    let p0 = p.write(raise);
    lemma_gist_raise(p, op.stamp, spec_span(op.kind));
    assert forall|i: int| 0 <= i < b.len() implies unplacing(#[trigger] b[i]) && (
    b[i] matches WriteV::Link { child, .. } ==> !p0.placements.dom().contains(child)) by {}
    lemma_gist_writes(p0, b);
    let p1 = p0.writes(b);
    lemma_born_parents(p0, child, c);
    lemma_writes_concat(p1, mid, tail);
    let p2 = p1.writes(mid);
    assert(p2 == p1.write(home).write(hold).write(put).write(place).write(placed)) by {
        assert(mid.drop_last() =~= seq![home, hold, put, place]);
        assert(seq![home, hold, put, place].drop_last() =~= seq![home, hold, put]);
        assert(seq![home, hold, put].drop_last() =~= seq![home, hold]);
        lemma_writes_two(p1, home, hold);
        reveal_with_fuel(TreeV::writes, 4);
    }
    lemma_gist_write(p1, hold);
    lemma_gist_write(p1.write(hold), put);
    let q = p1.write(hold).write(put);
    assert(p2.gist() == q.gist()) by {
        assert(p2.gist().tree.parents =~= q.gist().tree.parents);
        assert(p2.revealed =~= q.revealed);
        assert(p2.lists == q.lists);
        assert(p2.gist().tree == q.gist().tree);
    }
    lemma_gist_tail(p2, child, owner);
    let g = p.gist().tree;
    assert(p.owner_of(op) == link_of(g.parents, op.target));
    let two = seq![hold, put];
    lemma_writes_two(g.writes(b), hold, put);
    assert(p.gist().writes_for(op) =~= b + (two + tail));
    lemma_writes_concat(g, b, two + tail);
    lemma_writes_concat(g.writes(b), two, tail);
    assert(p.gist().after(op).tree == g.writes(b).writes(two).writes(tail));
    assert(p.writes(all) == p2.writes(tail));
}

proof fn lemma_gist_tail(t: TreeV, child: ElementId, owner: Option<ElementId>)
    ensures
        ({
            let tail = match owner {
                Some(o) => seq![WriteV::Base { child, parent: o }],
                None => Seq::empty(),
            };
            t.writes(tail).gist() == (GistV { tree: t.gist().tree.writes(tail), log: t.gist().log })
        }),
{
    if let Some(o) = owner {
        let w = WriteV::Base { child, parent: o };
        lemma_writes_one(t, w);
        lemma_writes_one(t.gist().tree, w);
        lemma_gist_write(t, w);
    }
}

/// Making a container links only what is its own.
proof fn lemma_born_parents(t: TreeV, child: ElementId, c: ContainerV)
    requires
        !t.parents.dom().contains(child),
        c is XmlElement ==> node_attrs_id(child) != child && node_children_id(child) != child,
        c is XmlElement || c is Text,
    ensures
        !t.writes(born(child, c)).parents.dom().contains(child),
        t.writes(born(child, c)).revealed == t.revealed,
        t.writes(born(child, c)).placements == t.placements,
    decreases born(child, c).len(),
{
    let b = born(child, c);
    reveal_with_fuel(TreeV::writes, 6);
    assert(b.drop_last().len() == b.len() - 1);
}

/// An op that settles: the gist after it.
pub(crate) proof fn lemma_gist_loosened(t: TreeV, op: OpV)
    requires
        t.takes_settling(op),
        t.placements.dom().finite(),
        !t.placements.dom().contains(op.target),
        op.kind is XmlMove ==> t.placements.dom().contains(op.kind->XmlMove_node),
        t.revealed == Set::<ElementId>::empty(),
    ensures
        loosened(t, op).refold().gist() == t.gist().after(op),
        loosened(t, op).placements.dom() == t.placements.dom(),
{
    let u = loosened(t, op);
    let g = t.gist().tree;
    if op.kind is XmlMove {
        let node = op.kind->XmlMove_node;
        let h = t.node_handle(node)->Some_0;
        let ws = move_writes(op, h);
        lemma_gist_doms(t);
        assert(g.node_handle(node) == Some(h));
        assert(u.placements.dom() =~= t.placements.dom());
        lemma_writes_two(t, ws[0], ws[1]);
        assert(ws =~= seq![ws[0], ws[1]]);
        lemma_gist_writes(t, ws);
        let v = t.writes(ws);
        assert(u.lists =~= v.lists);
        assert(u.revealed =~= v.revealed);
        assert(u.gist().tree == v.gist().tree) by {
            assert(u.gist().tree.parents =~= v.gist().tree.parents);
        }
        assert(link_of(g.parents, op.target) == Some(t.parents[op.target]));
    } else {
        let id = op.kind->ListDelete_id;
        let w = WriteV::ListDrop { list: op.target, id };
        lemma_gist_write(t, w);
        lemma_writes_one(g, w);
        assert(t.gist().writes_for(op) =~= seq![w]);
    }
    lemma_gist_refold(u);
}

} // verus!
