//! What a reader of a snapshot works out of where nodes stand: for a replica in which none
//! has moved, what the replica has.

use crate::annot::Placement;
use crate::clientid::ClientId;
use crate::converge::{lemma_record, raised};
use crate::doc::DocV;
use crate::element::ElementV;
use crate::elementid::ElementId;
use crate::floor::{lemma_floored_unique, slot_holds};
use crate::identity::{spec_born_at, spec_span};
use crate::list::{ListV, SeqKey};
use crate::move_laws::{lemma_only, lemma_placed, lemma_settling_applied, loosened};
use crate::op::{OpId, OpV};
use crate::order::{in_order, lemma_in_order};
use crate::rebuild::birth_of;
use crate::snapshot::made_whole;
use crate::snapshot_laws::{held_in_order, lemma_held_finite, lemma_op_at};
use crate::stamp::Stamp;
use crate::state::{held_ids, is_spelled};
use crate::table::{lemma_ordered_exists, ordered, Key};
use crate::tree::{latest_in, TreeV};
use crate::treemove::{link_of, MoveEdge, MovesV};
use crate::xml::node_children_id;
use vstd::prelude::*;

verus! {

// --- nodes where they were born ---

impl TreeV {
    pub open spec fn is_node(self, id: ElementId) -> bool {
        self.xml_elements.dom().contains(id) || self.xml_fragments.dom().contains(id)
    }

    /// The movable node that a sequence holds at a place.
    pub open spec fn child_at(self, p: Placement) -> Option<ElementId> {
        if self.lists.dom().contains(p.list) && self.lists[p.list].items.dom().contains(p.stamp) {
            match self.lists[p.list].items[p.stamp].value {
                ElementV::XmlElement(n) => Some(n),
                ElementV::Text(n) => Some(n),
                _ => None,
            }
        } else {
            None
        }
    }

    /// Whether a movable node has one place, where it was born, and hangs off its sequence:
    /// it is there, or was deleted there.
    pub open spec fn at_birth(self, n: ElementId) -> bool {
        let p = self.placements[n][0];
        &&& self.placements[n] == seq![p]
        &&& spec_born_at(p.list, p.stamp, n)
        &&& link_of(self.parents, n) == Some(p.list)
        &&& self.lists.dom().contains(p.list)
        &&& self.child_at(p) == Some(n) || self.is_tombstoned(p)
        &&& self.in_children(p)
    }

    /// Whether no node has moved, and every node in a children sequence stands there.
    pub open spec fn stands_still(self) -> bool {
        &&& self.moves.log.dom() == Set::<Stamp>::empty()
        &&& forall|n: ElementId| #[trigger] self.placements.dom().contains(n) ==> self.at_birth(n)
        &&& forall|o: ElementId, s: Stamp|
            self.is_node(o) && #[trigger] self.child_at(
                Placement { list: node_children_id(o), stamp: s },
            ) is Some ==> {
                let p = Placement { list: node_children_id(o), stamp: s };
                let n = self.child_at(p)->Some_0;
                self.placements.dom().contains(n) && self.placements[n] == seq![p]
            }
    }

    /// Whether every stamp of something held, or of a move in a log, is within its author's
    /// figure.
    pub open spec fn figures_cover(self, log: Seq<(Stamp, MoveEdge)>) -> bool {
        forall|c: ClientId, n: u64| #[trigger]
            self.noted(log, c, n) ==> self.high_water.dom().contains(c) && self.high_water[c] >= n
    }

    /// Whether everything held is held finitely often.
    pub open spec fn bounded_stores(self) -> bool {
        &&& self.xml_elements.dom().finite()
        &&& self.xml_fragments.dom().finite()
        &&& self.texts.dom().finite()
        &&& self.parents.dom().finite()
        &&& self.placements.dom().finite()
        &&& forall|l: ElementId| #[trigger]
            self.lists.dom().contains(l) ==> self.lists[l].items.dom().finite()
    }
}

/// Whether two states hold the same sequences, links and nodes, but for which are
/// suppressed or displaced.
spec fn mirrors(t: TreeV, u: TreeV) -> bool {
    &&& u.parents == t.parents
    &&& u.xml_elements.dom() == t.xml_elements.dom()
    &&& u.xml_fragments.dom() == t.xml_fragments.dom()
    &&& u.lists.dom() == t.lists.dom()
    &&& forall|l: ElementId| #[trigger]
        t.lists.dom().contains(l) ==> same_items(t.lists[l], u.lists[l])
}

spec fn same_items(a: ListV, b: ListV) -> bool {
    &&& a.places == b.places
    &&& a.items.dom() == b.items.dom()
    &&& forall|s: Stamp| #[trigger] a.items.dom().contains(s) ==> a.items[s].value
        == b.items[s].value
}

proof fn lemma_mirrors(t: TreeV, u: TreeV, p: Placement)
    requires
        mirrors(t, u),
    ensures
        u.child_at(p) == t.child_at(p),
        u.is_tombstoned(p) == t.is_tombstoned(p),
{
    if t.lists.dom().contains(p.list) {
        assert(same_items(t.lists[p.list], u.lists[p.list]));
    }
}

/// Whether a state on its way back has only places that the other has.
spec fn partly(t: TreeV, u: TreeV) -> bool {
    &&& mirrors(t, u)
    &&& forall|n: ElementId| #[trigger]
        u.placements.dom().contains(n) ==> t.placements.dom().contains(n) && u.placements[n]
            == t.placements[n]
    &&& forall|p: Placement| #[trigger]
        u.placement_index.dom().contains(p) ==> exists|n: ElementId| #[trigger]
            u.placements.dom().contains(n) && u.placements[n].contains(p)
    &&& forall|n: ElementId| #[trigger]
        t.placements.dom().contains(n) && is_spelled(t, t.placements[n])
            ==> u.placements.dom().contains(n)
}

impl TreeV {
    /// Whether a place is in the children of a node that is linked to them.
    pub open spec fn in_children(self, p: Placement) -> bool {
        exists|o: ElementId| #[trigger]
            self.is_node(o) && p.list == node_children_id(o) && link_of(self.parents, p.list)
                == Some(o)
    }

    /// Whether the sequences tell where nodes stand: every node that has one place, and was
    /// not deleted there, is there, what is in a children sequence is placed there, and no
    /// place is two nodes'.
    pub open spec fn tells_places(self) -> bool {
        &&& forall|n: ElementId| #[trigger]
            self.placements.dom().contains(n) && !is_spelled(self, self.placements[n]) ==> {
                let p = self.placements[n][0];
                self.placements[n].len() == 1 && self.child_at(p) == Some(n) && self.in_children(p)
            }
        &&& forall|o: ElementId, s: Stamp|
            self.is_node(o) && #[trigger] self.child_at(
                Placement { list: node_children_id(o), stamp: s },
            ) is Some ==> {
                let p = Placement { list: node_children_id(o), stamp: s };
                let n = self.child_at(p)->Some_0;
                self.placements.dom().contains(n) && self.placements[n].contains(p)
            }
        &&& forall|a: ElementId, b: ElementId, p: Placement|
            self.placements.dom().contains(a) && self.placements.dom().contains(b)
                && #[trigger] self.placements[a].contains(p) && #[trigger] self.placements[b].contains(
                p,
            ) ==> a == b
    }
}

/// Placing a node where its sequence holds it.
proof fn lemma_birth(t: TreeV, u: TreeV, o: ElementId, s: Stamp)
    requires
        t.tells_places(),
        partly(t, u),
        t.is_node(o),
        t.lists.dom().contains(node_children_id(o)),
        t.lists[node_children_id(o)].items.dom().contains(s),
    ensures
        ({
            let p = Placement { list: node_children_id(o), stamp: s };
            let v = u.with_birth(node_children_id(o), s);
            &&& partly(t, v)
            &&& v == (TreeV { placements: v.placements, placement_index: v.placement_index, ..u })
            &&& u.placements.dom().subset_of(v.placements.dom())
            &&& t.child_at(p) matches Some(n) ==> v.placements.dom().contains(n)
        }),
{
    let list = node_children_id(o);
    let p = Placement { list, stamp: s };
    let v = u.with_birth(list, s);
    lemma_mirrors(t, u, p);
    assert(same_items(t.lists[list], u.lists[list]));
    if let Some(n) = t.child_at(p) {
        assert(u.child_at(p) == Some(n));
        assert(t.placements[n].contains(p));
        if !u.placements.dom().contains(n) {
            if u.placement_index.dom().contains(p) {
                let m = choose|m: ElementId| #[trigger]
                    u.placements.dom().contains(m) && u.placements[m].contains(p);
                assert(t.placements[m].contains(p));
                assert(m == n);
            }
            assert(!is_spelled(t, t.placements[n]));
            assert(t.placements[n] =~= seq![p]);
            assert(v.placements[n] =~= seq![p]);
            assert forall|q: Placement| #[trigger] v.placement_index.dom().contains(q)
                implies exists|m: ElementId| #[trigger]
                v.placements.dom().contains(m) && v.placements[m].contains(q) by {
                if q == p {
                    assert(v.placements[n][0] == p);
                    assert(v.placements.dom().contains(n));
                } else {
                    let m = choose|m: ElementId| #[trigger]
                        u.placements.dom().contains(m) && u.placements[m].contains(q);
                    assert(v.placements.dom().contains(m));
                }
            }
        }
    }
}

proof fn lemma_births_in(t: TreeV, u: TreeV, o: ElementId, ids: Seq<Stamp>)
    requires
        t.tells_places(),
        partly(t, u),
        t.is_node(o),
        t.lists.dom().contains(node_children_id(o)),
        forall|i: int|
            0 <= i < ids.len() ==> t.lists[node_children_id(o)].items.dom().contains(
                #[trigger] ids[i],
            ),
    ensures
        ({
            let v = u.births_in(node_children_id(o), ids);
            &&& partly(t, v)
            &&& v == (TreeV { placements: v.placements, placement_index: v.placement_index, ..u })
            &&& u.placements.dom().subset_of(v.placements.dom())
            &&& forall|i: int|
                0 <= i < ids.len() ==> (t.child_at(
                    Placement { list: node_children_id(o), stamp: #[trigger] ids[i] },
                ) matches Some(n) ==> v.placements.dom().contains(n))
        }),
    decreases ids.len(),
{
    if ids.len() > 0 {
        let h = ids.drop_last();
        assert forall|i: int| 0 <= i < h.len()
            implies t.lists[node_children_id(o)].items.dom().contains(#[trigger] h[i]) by {
            assert(h[i] == ids[i]);
        }
        lemma_births_in(t, u, o, h);
        assert(ids[ids.len() - 1] == ids.last());
        let w = u.births_in(node_children_id(o), h);
        lemma_birth(t, w, o, ids.last());
        let v = u.births_in(node_children_id(o), ids);
        assert forall|i: int| 0 <= i < ids.len() implies (t.child_at(
            Placement { list: node_children_id(o), stamp: #[trigger] ids[i] },
        ) matches Some(n) ==> v.placements.dom().contains(n)) by {
            if i < h.len() {
                assert(h[i] == ids[i]);
            }
        }
    }
}

/// Whether every movable node that some owners' sequences hold is placed.
spec fn all_born(t: TreeV, u: TreeV, owners: Seq<ElementId>) -> bool {
    forall|i: int, s: Stamp|
        0 <= i < owners.len() ==> (#[trigger] t.child_at(
            Placement { list: node_children_id(#[trigger] owners[i]), stamp: s },
        ) matches Some(n) ==> u.placements.dom().contains(n))
}

proof fn lemma_births_over(t: TreeV, u: TreeV, owners: Seq<ElementId>)
    requires
        t.tells_places(),
        t.bounded_stores(),
        partly(t, u),
        forall|i: int| 0 <= i < owners.len() ==> t.is_node(#[trigger] owners[i]),
    ensures
        ({
            let v = u.births_over(owners);
            &&& partly(t, v)
            &&& v == (TreeV { placements: v.placements, placement_index: v.placement_index, ..u })
            &&& u.placements.dom().subset_of(v.placements.dom())
            &&& all_born(t, v, owners)
        }),
    decreases owners.len(),
{
    if owners.len() > 0 {
        let h = owners.drop_last();
        let o = owners.last();
        let list = node_children_id(o);
        assert forall|i: int| 0 <= i < h.len() implies t.is_node(#[trigger] h[i]) by {
            assert(h[i] == owners[i]);
        }
        lemma_births_over(t, u, h);
        assert(owners[owners.len() - 1] == o);
        assert(t.is_node(o));
        let w = u.births_over(h);
        let v = u.births_over(owners);
        if t.lists.dom().contains(list) {
            assert(same_items(t.lists[list], w.lists[list]));
            let d = t.lists[list].items.dom();
            let ids = ordered::<SeqKey>(d);
            lemma_ordered_exists::<SeqKey>(d);
            assert forall|i: int| 0 <= i < ids.len() implies d.contains(#[trigger] ids[i]) by {
                assert(ids.to_set().contains(ids[i]));
            }
            lemma_births_in(t, w, o, ids);
            assert(v == w.births_in(list, ids));
        }
        assert forall|i: int, s: Stamp| 0 <= i < owners.len() implies (#[trigger] t.child_at(
            Placement { list: node_children_id(#[trigger] owners[i]), stamp: s },
        ) matches Some(n) ==> v.placements.dom().contains(n)) by {
            let p = Placement { list: node_children_id(owners[i]), stamp: s };
            if let Some(n) = t.child_at(p) {
                if i < h.len() {
                    assert(h[i] == owners[i]);
                    assert(w.placements.dom().contains(n));
                } else {
                    let d = t.lists[list].items.dom();
                    let ids = ordered::<SeqKey>(d);
                    assert(d.contains(s));
                    assert(ids.to_set().contains(s));
                    let k = ids.index_of(s);
                    assert(ids[k] == s);
                }
            }
        }
    }
}

/// Every node is placed again where it was born.
proof fn lemma_births(t: TreeV, u: TreeV)
    requires
        t.tells_places(),
        t.bounded_stores(),
        partly(t, u),
    ensures
        ({
            let v = u.with_births();
            &&& mirrors(t, v)
            &&& v == (TreeV { placements: v.placements, placement_index: v.placement_index, ..u })
            &&& v.placements == t.placements
        }),
{
    reveal(TreeV::with_births);
    let e = ordered::<ElementId>(t.xml_elements.dom());
    let f = ordered::<ElementId>(t.xml_fragments.dom());
    lemma_ordered_exists::<ElementId>(t.xml_elements.dom());
    lemma_ordered_exists::<ElementId>(t.xml_fragments.dom());
    assert forall|i: int| 0 <= i < e.len() implies t.is_node(#[trigger] e[i]) by {
        assert(e.to_set().contains(e[i]));
    }
    assert forall|i: int| 0 <= i < f.len() implies t.is_node(#[trigger] f[i]) by {
        assert(f.to_set().contains(f[i]));
    }
    lemma_births_over(t, u, e);
    let w = u.births_over(e);
    lemma_births_over(t, w, f);
    let v = w.births_over(f);
    assert(u.with_births() == v);
    assert forall|n: ElementId| t.placements.dom().contains(n)
        implies #[trigger] v.placements.dom().contains(n) by {
        let p = t.placements[n][0];
        if !is_spelled(t, t.placements[n]) {
            assert(t.in_children(p));
            let o = choose|o: ElementId| #[trigger]
                t.is_node(o) && p.list == node_children_id(o) && link_of(t.parents, p.list)
                    == Some(o);
            assert(t.child_at(Placement { list: node_children_id(o), stamp: p.stamp }) == Some(n));
            if t.xml_elements.dom().contains(o) {
                assert(e.to_set().contains(o));
                let i = e.index_of(o);
                assert(e[i] == o);
                assert(t.child_at(
                    Placement { list: node_children_id(e[i]), stamp: p.stamp },
                ) == Some(n));
                assert(w.placements.dom().contains(n));
            } else {
                assert(f.to_set().contains(o));
                let i = f.index_of(o);
                assert(f[i] == o);
                assert(t.child_at(
                    Placement { list: node_children_id(f[i]), stamp: p.stamp },
                ) == Some(n));
            }
        }
    }
    assert(v.placements =~= t.placements);
}

proof fn lemma_in_children(t: TreeV, u: TreeV, p: Placement)
    requires
        t.in_children(p),
        u.xml_elements.dom() == t.xml_elements.dom(),
        u.xml_fragments.dom() == t.xml_fragments.dom(),
        u.parents == t.parents,
    ensures
        u.in_children(p),
{
    let o = choose|o: ElementId| #[trigger]
        t.is_node(o) && p.list == node_children_id(o) && link_of(t.parents, p.list) == Some(o);
    assert(u.is_node(o));
}

// --- what nodes were created under ---

/// Whether every placed node is known to be created under what its sequence is of.
spec fn based_well(t: TreeV, m: MovesV) -> bool {
    forall|n: ElementId| #[trigger]
        t.placements.dom().contains(n) ==> link_of(m.base, n) == link_of(
            t.parents,
            t.placements[n][0].list,
        )
}

proof fn lemma_based_born(t: TreeV, nodes: Seq<ElementId>)
    requires
        forall|n: ElementId| #[trigger] t.placements.dom().contains(n) ==> t.at_birth(n),
        forall|i: int| 0 <= i < nodes.len() ==> t.placements.dom().contains(#[trigger] nodes[i]),
    ensures
        ({
            let u = t.based_born(nodes);
            &&& u == (TreeV { moves: u.moves, ..t })
            &&& u.moves.log == t.moves.log
            &&& forall|i: int|
                0 <= i < nodes.len() ==> link_of(u.moves.base, #[trigger] nodes[i]) == link_of(
                    t.parents,
                    t.placements[nodes[i]][0].list,
                )
        }),
    decreases nodes.len(),
{
    if nodes.len() > 0 {
        let h = nodes.drop_last();
        let n = nodes.last();
        assert forall|i: int| 0 <= i < h.len() implies t.placements.dom().contains(
            #[trigger] h[i],
        ) by {
            assert(h[i] == nodes[i]);
        }
        lemma_based_born(t, h);
        assert(nodes[nodes.len() - 1] == n);
        assert(t.at_birth(n));
        let u = t.based_born(h);
        let v = t.based_born(nodes);
        let p = t.placements[n][0];
        assert(birth_of(n, u.placements[n]) == Some(p));
        assert forall|i: int| 0 <= i < nodes.len() implies link_of(
            v.moves.base,
            #[trigger] nodes[i],
        ) == link_of(t.parents, t.placements[nodes[i]][0].list) by {
            if i < h.len() {
                assert(h[i] == nodes[i]);
            }
        }
    }
}

/// Nodes that have no placement leave those that have one.
proof fn lemma_based_unplaced(t: TreeV, nodes: Seq<ElementId>)
    requires
        based_well(t, t.moves),
    ensures
        ({
            let u = t.based_unplaced(nodes);
            &&& u == (TreeV { moves: u.moves, ..t })
            &&& u.moves.log == t.moves.log
            &&& based_well(t, u.moves)
        }),
    decreases nodes.len(),
{
    if nodes.len() > 0 {
        lemma_based_unplaced(t, nodes.drop_last());
    }
}

/// Containers that hang off no sequence leave those that do.
proof fn lemma_based_nested(t: TreeV, nodes: Seq<ElementId>)
    requires
        forall|n: ElementId| #[trigger] t.placements.dom().contains(n) ==> t.at_birth(n),
        based_well(t, t.moves),
    ensures
        ({
            let u = t.based_nested(nodes);
            &&& u == (TreeV { moves: u.moves, ..t })
            &&& u.moves.log == t.moves.log
            &&& based_well(t, u.moves)
        }),
    decreases nodes.len(),
{
    if nodes.len() > 0 {
        lemma_based_nested(t, nodes.drop_last());
        let c = nodes.last();
        if t.placements.dom().contains(c) {
            assert(t.at_birth(c));
        }
    }
}

proof fn lemma_reseeded(t: TreeV)
    requires
        t.placements.dom().finite(),
        forall|n: ElementId| #[trigger] t.placements.dom().contains(n) ==> t.at_birth(n),
    ensures
        ({
            let u = t.reseeded();
            &&& u == (TreeV { moves: u.moves, ..t })
            &&& u.moves.log == t.moves.log
            &&& based_well(t, u.moves)
        }),
{
    reveal(TreeV::reseeded);
    let q = ordered::<ElementId>(t.placements.dom());
    lemma_ordered_exists::<ElementId>(t.placements.dom());
    assert forall|i: int| 0 <= i < q.len() implies t.placements.dom().contains(#[trigger] q[i]) by {
        assert(q.to_set().contains(q[i]));
    }
    lemma_based_born(t, q);
    let a = t.based_born(q);
    assert(based_well(a, a.moves)) by {
        assert forall|n: ElementId| #[trigger] a.placements.dom().contains(n) implies link_of(
            a.moves.base,
            n,
        ) == link_of(a.parents, a.placements[n][0].list) by {
            assert(q.to_set().contains(n));
            let i = q.index_of(n);
            assert(q[i] == n);
        }
    }
    let e = ordered::<ElementId>(t.xml_elements.dom());
    let x = ordered::<ElementId>(t.texts.dom());
    let g = ordered::<ElementId>(t.parents.dom());
    lemma_based_unplaced(a, e);
    let b = a.based_unplaced(e);
    lemma_based_unplaced(b, x);
    let c = b.based_unplaced(x);
    assert forall|n: ElementId| #[trigger] c.placements.dom().contains(n) implies c.at_birth(
        n,
    ) by {
        assert(t.at_birth(n));
        lemma_in_children(t, c, t.placements[n][0]);
    }
    lemma_based_nested(c, g);
}

// --- settling what stands still ---

/// Settling nodes that hang where they belong moves none.
proof fn lemma_stays(t: TreeV, tree: Map<ElementId, ElementId>, q: Seq<ElementId>)
    requires
        forall|i: int|
            0 <= i < q.len() ==> (tree.dom().contains(#[trigger] q[i]) ==> link_of(t.parents, q[i])
                == Some(node_children_id(tree[q[i]]))),
    ensures
        ({
            let u = t.settle_all(tree, q);
            &&& u == (TreeV { lists: u.lists, ..t })
            &&& mirrors(t, u)
        }),
    decreases q.len(),
{
    reveal(TreeV::settle);
    if q.len() > 0 {
        let h = q.drop_last();
        let n = q.last();
        assert forall|i: int| 0 <= i < h.len() implies (tree.dom().contains(#[trigger] h[i])
            ==> link_of(t.parents, h[i]) == Some(node_children_id(tree[h[i]]))) by {
            assert(h[i] == q[i]);
        }
        lemma_stays(t, tree, h);
        assert(q[q.len() - 1] == n);
        let u = t.settle_all(tree, h);
        let v = t.settle_all(tree, q);
        if tree.dom().contains(n) {
            let list = node_children_id(tree[n]);
            let places = u.placements[n];
            let live = if u.any_tombstoned(places) {
                None
            } else {
                latest_in(places, list)
            };
            lemma_only(u, places, list, live);
            assert(u.parents.insert(n, list) =~= t.parents);
            assert forall|l: ElementId| #[trigger] t.lists.dom().contains(l) implies same_items(
                t.lists[l],
                v.lists[l],
            ) by {
                assert(u.lists.dom().contains(l));
                assert(same_items(t.lists[l], u.lists[l]));
            }
        }
    }
}

// --- the figures ---

/// The bytes hold no stamp that the state does not.
proof fn lemma_same_stamps(t: TreeV, x: Stamp)
    requires
        t.written().with_flags().holds_stamp(x),
    ensures
        t.holds_stamp(x),
{
    let f = t.written().with_flags();
    if TreeV::sequence_holds(f.lists, x) {
        let l = choose|l: ElementId| #[trigger]
            f.lists.dom().contains(l) && f.lists[l].places.dom().contains(x);
        assert(t.lists.dom().contains(l) && t.lists[l].places.dom().contains(x));
    } else if TreeV::sequence_holds(f.texts, x) {
        let l = choose|l: ElementId| #[trigger]
            f.texts.dom().contains(l) && f.texts[l].places.dom().contains(x);
        assert(t.texts.dom().contains(l) && t.texts[l].places.dom().contains(x));
    } else if exists|m: ElementId, k: Seq<u8>|
        f.maps.dom().contains(m) && #[trigger] f.maps[m].slots.dom().contains(k)
            && slot_holds(f.maps[m].slots[k], x) {
        let (m, k) = choose|m: ElementId, k: Seq<u8>|
            f.maps.dom().contains(m) && #[trigger] f.maps[m].slots.dom().contains(k)
                && slot_holds(f.maps[m].slots[k], x);
        assert(t.maps.dom().contains(m) && t.maps[m].slots.dom().contains(k));
    } else if exists|n: ElementId, i: int|
        f.placements.dom().contains(n) && 0 <= i < f.placements[n].len() && (
        #[trigger] f.placements[n][i]).stamp == x {
        let (n, i) = choose|n: ElementId, i: int|
            f.placements.dom().contains(n) && 0 <= i < f.placements[n].len() && (
            #[trigger] f.placements[n][i]).stamp == x;
        let s = t.placements[n].to_set();
        let p = f.placements[n][i];
        lemma_to_set_finite(t.placements[n]);
        lemma_ordered_exists::<Placement>(s);
        assert(f.placements[n] == ordered::<Placement>(s));
        assert(ordered::<Placement>(s).to_set().contains(p));
        assert(s.contains(p));
        let j = t.placements[n].index_of(p);
        assert(t.placements[n][j].stamp == x);
    }
}

proof fn lemma_to_set_finite(s: Seq<Placement>)
    ensures
        s.to_set().finite(),
{
    vstd::seq_lib::seq_to_set_is_finite(s);
}

/// The figures a reader works out are those written, where they cover everything held.
proof fn lemma_floor(t: TreeV, log: Seq<(Stamp, MoveEdge)>)
    requires
        t.figures_cover(log),
    ensures
        t.written().with_flags().with_floor(log) == t.written().with_flags(),
{
    let f = t.written().with_flags();
    let hw = t.high_water;
    assert(f.high_water == hw);
    assert forall|c: ClientId, n: u64| #[trigger] f.noted(log, c, n) implies hw.dom().contains(c)
        && hw[c] >= n by {
        let x = choose|x: Stamp| x.client == c && x.lamport == n && #[trigger] f.carries(log, x);
        if f.holds_stamp(x) {
            lemma_same_stamps(t, x);
        }
        assert(t.carries(log, x));
        assert(t.noted(log, c, n));
    }
    assert(f.floored(log, hw, hw));
    lemma_floored_unique(f, log, hw, hw, f.with_floor(log).high_water);
}

// --- the law ---

/// Where nothing moved the sequences tell where nodes stand.
proof fn lemma_still_tells(t: TreeV)
    requires
        t.stands_still(),
        t.places_apart(),
    ensures
        t.tells_places(),
{
    assert forall|n: ElementId| #[trigger]
        t.placements.dom().contains(n) && !is_spelled(t, t.placements[n]) implies {
        let p = t.placements[n][0];
        t.placements[n].len() == 1 && t.child_at(p) == Some(n) && t.in_children(p)
    } by {
        assert(t.at_birth(n));
        if t.is_tombstoned(t.placements[n][0]) {
            assert(t.any_tombstoned(t.placements[n]));
        }
    }
    assert forall|o: ElementId, s: Stamp|
        t.is_node(o) && #[trigger] t.child_at(
            Placement { list: node_children_id(o), stamp: s },
        ) is Some implies {
        let p = Placement { list: node_children_id(o), stamp: s };
        let n = t.child_at(p)->Some_0;
        t.placements.dom().contains(n) && t.placements[n].contains(p)
    } by {
        let p = Placement { list: node_children_id(o), stamp: s };
        let n = t.child_at(p)->Some_0;
        assert(t.placements[n][0] == p);
    }
    assert forall|a: ElementId, b: ElementId, p: Placement|
        t.placements.dom().contains(a) && t.placements.dom().contains(b)
            && #[trigger] t.placements[a].contains(p) && #[trigger] t.placements[b].contains(p)
        implies a == b by {
        assert(t.at_birth(a) && t.at_birth(b));
        assert(t.placements[a][0] == p && t.placements[b][0] == p);
        if t.is_tombstoned(p) {
            assert(t.any_tombstoned(t.placements[a]) && t.any_tombstoned(t.placements[b]));
            assert(t.spells(a, p) && t.spells(b, p));
        }
    }
}

impl TreeV {
    /// The state with each node's places in their written order.
    pub open spec fn with_places_sorted(self) -> TreeV {
        TreeV {
            placements: self.placements.map_values(
                |q: Seq<Placement>| ordered::<Placement>(q.to_set()),
            ),
            ..self
        }
    }

    /// Whether no node has a place twice.
    pub open spec fn places_once(self) -> bool {
        forall|n: ElementId| #[trigger]
            self.placements.dom().contains(n) ==> self.placements[n].no_duplicates()
    }
}

/// Places in their written order are the same places.
pub(crate) proof fn lemma_sorted(t: TreeV, n: ElementId)
    requires
        t.places_once(),
        t.placements.dom().contains(n),
    ensures
        t.with_places_sorted().placements[n].len() == t.placements[n].len(),
        t.with_places_sorted().placements[n].to_set() == t.placements[n].to_set(),
        forall|p: Placement| #[trigger]
            t.with_places_sorted().placements[n].contains(p) <==> t.placements[n].contains(p),
        is_spelled(t.with_places_sorted(), t.with_places_sorted().placements[n]) == is_spelled(
            t,
            t.placements[n],
        ),
        t.placements[n].len() == 1 ==> t.with_places_sorted().placements[n] == t.placements[n],
{
    let u = t.with_places_sorted();
    let a = t.placements[n];
    let b = u.placements[n];
    lemma_to_set_finite(a);
    lemma_ordered_exists::<Placement>(a.to_set());
    assert forall|p: Placement| #[trigger] b.contains(p) <==> a.contains(p) by {
        assert(b.to_set().contains(p) <==> a.to_set().contains(p));
    }
    assert(b.no_duplicates()) by {
        assert forall|i: int, j: int| 0 <= i < j < b.len() implies b[i] != b[j] by {
            assert(<Placement as Key>::before(b[i], b[j]));
            <Placement as Key>::before_total(b[i], b[j]);
        }
    }
    a.unique_seq_to_set();
    b.unique_seq_to_set();
    if t.any_tombstoned(a) {
        let i = choose|i: int| 0 <= i < a.len() && t.is_tombstoned(#[trigger] a[i]);
        assert(a.contains(a[i]));
        assert(b.contains(a[i]));
        let j = b.index_of(a[i]);
        assert(u.is_tombstoned(b[j]));
    }
    if u.any_tombstoned(b) {
        let i = choose|i: int| 0 <= i < b.len() && u.is_tombstoned(#[trigger] b[i]);
        assert(b.contains(b[i]));
        assert(a.contains(b[i]));
        let j = a.index_of(b[i]);
        assert(t.is_tombstoned(a[j]));
    }
    if a.len() == 1 {
        assert(b.contains(b[0]));
        assert(a =~= b);
    }
}

/// What is written of a state whose sequences tell where nodes stand is part of it.
proof fn lemma_written_partly(t: TreeV)
    requires
        t.places_once(),
    ensures
        partly(t.with_places_sorted(), t.written().with_flags()),
{
    let f = t.written().with_flags();
    let u = t.with_places_sorted();
    assert(f.xml_elements.dom() =~= t.xml_elements.dom());
    assert(f.xml_fragments.dom() =~= t.xml_fragments.dom());
    assert(f.lists.dom() =~= t.lists.dom());
    assert forall|l: ElementId| #[trigger] u.lists.dom().contains(l) implies same_items(
        u.lists[l],
        f.lists[l],
    ) by {
        assert(f.lists[l].items.dom() =~= t.lists[l].items.dom());
    }
    assert forall|p: Placement| #[trigger] f.placement_index.dom().contains(p)
        implies exists|n: ElementId| #[trigger]
        f.placements.dom().contains(n) && f.placements[n].contains(p) by {
        let n = choose|n: ElementId| #[trigger] t.spells(n, p);
        assert(t.placements[n].contains(p));
        lemma_sorted(t, n);
        assert(f.placements.dom().contains(n));
        assert(f.placements[n] == u.placements[n]);
    }
    assert forall|n: ElementId| #[trigger]
        u.placements.dom().contains(n) && is_spelled(u, u.placements[n])
        implies f.placements.dom().contains(n) by {
        lemma_sorted(t, n);
    }
}

/// The sequences tell where nodes stand whatever order places are kept in.
proof fn lemma_sorted_tells(t: TreeV)
    requires
        t.places_once(),
        t.tells_places(),
    ensures
        t.with_places_sorted().tells_places(),
{
    let u = t.with_places_sorted();
    assert forall|n: ElementId| #[trigger]
        u.placements.dom().contains(n) && !is_spelled(u, u.placements[n]) implies {
        let p = u.placements[n][0];
        u.placements[n].len() == 1 && u.child_at(p) == Some(n) && u.in_children(p)
    } by {
        assert(t.placements.dom().contains(n));
        lemma_sorted(t, n);
        lemma_in_children(t, u, t.placements[n][0]);
    }
    assert forall|o: ElementId, s: Stamp|
        u.is_node(o) && #[trigger] u.child_at(
            Placement { list: node_children_id(o), stamp: s },
        ) is Some implies {
        let p = Placement { list: node_children_id(o), stamp: s };
        let n = u.child_at(p)->Some_0;
        u.placements.dom().contains(n) && u.placements[n].contains(p)
    } by {
        let p = Placement { list: node_children_id(o), stamp: s };
        assert(t.is_node(o) && t.child_at(p) is Some);
        let n = t.child_at(p)->Some_0;
        assert(t.placements.dom().contains(n) && t.placements[n].contains(p));
        lemma_sorted(t, n);
    }
    assert forall|a: ElementId, b: ElementId, p: Placement|
        u.placements.dom().contains(a) && u.placements.dom().contains(b)
            && #[trigger] u.placements[a].contains(p) && #[trigger] u.placements[b].contains(p)
        implies a == b by {
        lemma_sorted(t, a);
        lemma_sorted(t, b);
        assert(t.placements[a].contains(p) && t.placements[b].contains(p));
    }
}

impl DocV {
    /// Whether the figures cover what the ops that wait reserve.
    pub open spec fn covers_waiting(self) -> bool {
        forall|i: int|
            0 <= i < self.buffer.len() ==> raised(
                self.tree.high_water,
                (#[trigger] self.buffer[i]).stamp,
                spec_span(self.buffer[i].kind),
            ) == self.tree.high_water
    }
}

/// Recording what is recorded already changes nothing.
proof fn lemma_recorded_covered(t: TreeV, ops: Seq<OpV>)
    requires
        forall|i: int|
            0 <= i < ops.len() ==> raised(
                t.high_water,
                (#[trigger] ops[i]).stamp,
                spec_span(ops[i].kind),
            ) == t.high_water,
    ensures
        t.recorded(ops) == t,
    decreases ops.len(),
{
    if ops.len() > 0 {
        let h = ops.drop_last();
        assert forall|i: int| 0 <= i < h.len() implies raised(
            t.high_water,
            (#[trigger] h[i]).stamp,
            spec_span(h[i].kind),
        ) == t.high_water by {
            assert(h[i] == ops[i]);
        }
        lemma_recorded_covered(t, h);
        assert(ops[ops.len() - 1] == ops.last());
        lemma_record(t, ops.last().stamp, spec_span(ops.last().kind));
    }
}

/// What waits, in order, is what waits.
pub(crate) proof fn lemma_in_waiting(ops: Seq<OpV>, i: int)
    requires
        0 <= i < held_in_order(ops).len(),
    ensures
        ops.contains(held_in_order(ops)[i]),
        held_in_order(ops)[i].id == ordered::<OpId>(held_ids(ops))[i],
{
    let ids = ordered::<OpId>(held_ids(ops));
    lemma_held_finite(ops);
    lemma_ordered_exists::<OpId>(held_ids(ops));
    assert(ids.to_set().contains(ids[i]));
    lemma_op_at(ops, ids[i]);
}

proof fn lemma_waiting_covered(d: DocV, f: TreeV)
    requires
        d.covers_waiting(),
        f.high_water == d.tree.high_water,
    ensures
        f.recorded(held_in_order(d.buffer)) == f,
{
    let ops = held_in_order(d.buffer);
    assert forall|i: int| 0 <= i < ops.len() implies raised(
        f.high_water,
        (#[trigger] ops[i]).stamp,
        spec_span(ops[i].kind),
    ) == f.high_water by {
        lemma_in_waiting(d.buffer, i);
        let j: int = d.buffer.index_of(ops[i]);
        assert(d.buffer[j] == ops[i]);
    }
    lemma_recorded_covered(f, ops);
}

/// A replica in which no node has moved has the links, the places and the figures that a
/// reader of its bytes works out, so its snapshots re-encode to the same bytes.
pub proof fn law_replicas_that_stand_still_are_settled(d: DocV)
    requires
        d.tree.stands_still(),
        d.tree.bounded_stores(),
        d.tree.places_apart(),
        d.covers_waiting(),
        d.tree.figures_cover(d.tree.move_log()),
    ensures
        d.settled(),
{
    let t = d.tree;
    let ops = held_in_order(d.buffer);
    let log = t.move_log();
    lemma_ordered_exists::<Stamp>(t.moves.log.dom());
    assert(ordered::<Stamp>(t.moves.log.dom()).len() == 0) by {
        let q = ordered::<Stamp>(t.moves.log.dom());
        if q.len() > 0 {
            assert(q.to_set().contains(q[0]));
        }
    }
    assert(log =~= Seq::empty());
    let f = t.written().with_flags();
    lemma_floor(t, log);
    lemma_waiting_covered(d, f);
    let r = made_whole(d.written(), ops);
    assert(r == f.restored(Seq::empty()));
    lemma_still_tells(t);
    assert(t.places_once()) by {
        assert forall|n: ElementId| #[trigger] t.placements.dom().contains(n)
            implies t.placements[n].no_duplicates() by {
            assert(t.at_birth(n));
        }
    }
    assert(t.with_places_sorted().placements =~= t.placements) by {
        assert forall|n: ElementId| #[trigger] t.placements.dom().contains(n)
            implies t.with_places_sorted().placements[n] == t.placements[n] by {
            assert(t.at_birth(n));
            lemma_sorted(t, n);
        }
    }
    lemma_written_partly(t);
    lemma_births(t, f);
    let a = f.with_births();
    assert forall|n: ElementId| #[trigger] a.placements.dom().contains(n) implies a.at_birth(
        n,
    ) by {
        assert(t.at_birth(n));
        let p = t.placements[n][0];
        lemma_mirrors(t, a, p);
        lemma_in_children(t, a, p);
    }
    lemma_reseeded(a);
    let b = a.reseeded();
    reveal(TreeV::with_unplaced);
    let c = b.with_unplaced();
    assert(c.with_log(Seq::empty()) == c);
    let tree = c.moves.tree();
    lemma_in_order(c.moves.log.dom());
    assert(c.moves.log == f.moves.log);
    assert(c.moves.log.dom() =~= Set::empty());
    assert(in_order(c.moves.log.dom()).len() == 0) by {
        let q = in_order(c.moves.log.dom());
        if q.len() > 0 {
            assert(q.to_set().contains(q[0]));
        }
    }
    assert(tree == c.moves.base);
    reveal(TreeV::refold);
    let q = ordered::<ElementId>(c.placements.dom());
    lemma_ordered_exists::<ElementId>(c.placements.dom());
    assert forall|i: int| 0 <= i < q.len() implies (tree.dom().contains(#[trigger] q[i])
        ==> link_of(c.parents, q[i]) == Some(node_children_id(tree[q[i]]))) by {
        let n = q[i];
        assert(q.to_set().contains(n));
        assert(a.placements.dom().contains(n));
        assert(a.at_birth(n));
        assert(link_of(c.moves.base, n) == link_of(a.parents, a.placements[n][0].list));
    }
    lemma_stays(c, tree, q);
    assert(r == c.settle_all(tree, q));
    assert(r.moves.log =~= t.moves.log);
    assert(mirrors(t, r)) by {
        assert forall|l: ElementId| #[trigger] t.lists.dom().contains(l) implies same_items(
            t.lists[l],
            r.lists[l],
        ) by {
            assert(same_items(t.lists[l], a.lists[l]));
            assert(same_items(c.lists[l], r.lists[l]));
        }
    }
    lemma_same_spelling(t, r);
}

/// States that mirror each other and have the same places spell the same out.
proof fn lemma_same_spelling(t: TreeV, r: TreeV)
    requires
        mirrors(t, r),
        r.placements == t.placements,
        t.places_apart(),
    ensures
        r.written_places() == t.written_places(),
        r.written_index() == t.written_index(),
{
    assert forall|n: ElementId| #[trigger] t.placements.dom().contains(n) implies is_spelled(
        t,
        t.placements[n],
    ) == is_spelled(r, t.placements[n]) by {
        let places = t.placements[n];
        if t.any_tombstoned(places) {
            let i = choose|i: int| 0 <= i < places.len() && t.is_tombstoned(#[trigger] places[i]);
            lemma_mirrors(t, r, places[i]);
            assert(r.is_tombstoned(places[i]));
        }
        if r.any_tombstoned(places) {
            let i = choose|i: int| 0 <= i < places.len() && r.is_tombstoned(#[trigger] places[i]);
            lemma_mirrors(t, r, places[i]);
            assert(t.is_tombstoned(places[i]));
        }
    }
    assert(r.written_places() =~= t.written_places());
    assert forall|n: ElementId, p: Placement| #[trigger] r.spells(n, p) == t.spells(n, p) by {}
    let x = r.written_index();
    let y = t.written_index();
    assert forall|p: Placement| #[trigger] x.dom().contains(p) == y.dom().contains(p) && (
    x.dom().contains(p) ==> x[p] == y[p]) by {
        if exists|n: ElementId| #[trigger] r.spells(n, p) {
            let n = choose|n: ElementId| #[trigger] r.spells(n, p);
            assert(t.spells(n, p));
            let m = choose|m: ElementId| #[trigger] t.spells(m, p);
            assert(x[p] == n);
            assert(y[p] == m);
        }
        if exists|n: ElementId| #[trigger] t.spells(n, p) {
            let n = choose|n: ElementId| #[trigger] t.spells(n, p);
            assert(r.spells(n, p));
        }
    }
    assert(r.written_index() =~= t.written_index());
}

// --- replicas with moves ---

/// Whether two states have all that tells what nodes were created under.
spec fn tell_alike(a: TreeV, b: TreeV) -> bool {
    &&& a.parents == b.parents
    &&& a.placements == b.placements
    &&& a.lists.dom() == b.lists.dom()
    &&& a.xml_elements.dom() == b.xml_elements.dom()
    &&& a.texts.dom() == b.texts.dom()
    &&& a.moves.base == b.moves.base
}

proof fn lemma_born_alike(a: TreeV, b: TreeV, nodes: Seq<ElementId>)
    requires
        tell_alike(a, b),
    ensures
        tell_alike(a.based_born(nodes), b.based_born(nodes)),
        a.based_born(nodes) == (TreeV { moves: a.based_born(nodes).moves, ..a }),
        a.based_born(nodes).moves.log == a.moves.log,
    decreases nodes.len(),
{
    if nodes.len() > 0 {
        lemma_born_alike(a, b, nodes.drop_last());
    }
}

proof fn lemma_unplaced_alike(a: TreeV, b: TreeV, nodes: Seq<ElementId>)
    requires
        tell_alike(a, b),
    ensures
        tell_alike(a.based_unplaced(nodes), b.based_unplaced(nodes)),
        a.based_unplaced(nodes) == (TreeV { moves: a.based_unplaced(nodes).moves, ..a }),
        a.based_unplaced(nodes).moves.log == a.moves.log,
    decreases nodes.len(),
{
    if nodes.len() > 0 {
        lemma_unplaced_alike(a, b, nodes.drop_last());
    }
}

proof fn lemma_nested_alike(a: TreeV, b: TreeV, nodes: Seq<ElementId>)
    requires
        tell_alike(a, b),
    ensures
        tell_alike(a.based_nested(nodes), b.based_nested(nodes)),
        a.based_nested(nodes) == (TreeV { moves: a.based_nested(nodes).moves, ..a }),
        a.based_nested(nodes).moves.log == a.moves.log,
    decreases nodes.len(),
{
    if nodes.len() > 0 {
        lemma_nested_alike(a, b, nodes.drop_last());
    }
}

/// What nodes were created under is worked out alike.
proof fn lemma_reseeded_alike(a: TreeV, b: TreeV)
    requires
        tell_alike(a, b),
    ensures
        a.reseeded().moves.base == b.reseeded().moves.base,
        a.reseeded() == (TreeV { moves: a.reseeded().moves, ..a }),
        a.reseeded().moves.log == a.moves.log,
{
    reveal(TreeV::reseeded);
    let q = ordered::<ElementId>(a.placements.dom());
    let e = ordered::<ElementId>(a.xml_elements.dom());
    let x = ordered::<ElementId>(a.texts.dom());
    let g = ordered::<ElementId>(a.parents.dom());
    lemma_born_alike(a, b, q);
    lemma_unplaced_alike(a.based_born(q), b.based_born(q), e);
    let c = a.based_born(q).based_unplaced(e);
    let d = b.based_born(q).based_unplaced(e);
    lemma_unplaced_alike(c, d, x);
    lemma_nested_alike(c.based_unplaced(x), d.based_unplaced(x), g);
}

/// Moves recorded in turn are all recorded.
proof fn lemma_log_back(t: TreeV, log: Map<Stamp, MoveEdge>, q: Seq<Stamp>)
    requires
        t.moves.log == Map::<Stamp, MoveEdge>::empty(),
    ensures
        ({
            let u = t.with_log(q.map_values(|s: Stamp| (s, log[s])));
            &&& u == (TreeV { moves: u.moves, ..t })
            &&& u.moves.base == t.moves.base
            &&& forall|s: Stamp| #[trigger] u.moves.log.dom().contains(s) <==> q.contains(s)
            &&& forall|s: Stamp| #[trigger] u.moves.log.dom().contains(s) ==> u.moves.log[s]
                == log[s]
        }),
    decreases q.len(),
{
    let f = |s: Stamp| (s, log[s]);
    let u = t.with_log(q.map_values(f));
    if q.len() > 0 {
        let h = q.drop_last();
        assert(q.map_values(f).drop_last() =~= h.map_values(f));
        assert(q.map_values(f).last() == (q.last(), log[q.last()]));
        lemma_log_back(t, log, h);
        assert forall|s: Stamp| #[trigger] u.moves.log.dom().contains(s) <==> q.contains(s) by {
            if h.contains(s) {
                assert(q[h.index_of(s)] == s);
            }
            if s == q.last() {
                assert(q[q.len() - 1] == s);
            }
            if q.contains(s) && s != q.last() {
                assert(h[q.index_of(s)] == s);
            }
        }
    }
}

impl TreeV {
    /// Whether birth places and links tell what every node was created under.
    pub open spec fn tells_base(self) -> bool {
        (TreeV { moves: MovesV::empty(), ..self.with_places_sorted() }).reseeded().moves.base
            == self.moves.base
    }

    /// Whether the nodes that await a place are those that hang off a sequence without one.
    pub open spec fn tells_awaiting(self) -> bool {
        self.revealed == Set::new(
            |n: ElementId|
                (self.xml_elements.dom().contains(n) || self.texts.dom().contains(n))
                    && self.awaits(n),
        )
    }

    /// Whether every placed node hangs off the children of where the moves put it.
    pub open spec fn hangs_settled(self) -> bool {
        forall|n: ElementId| #[trigger]
            self.placements.dom().contains(n) && self.moves.tree().dom().contains(n) ==> link_of(
                self.parents,
                n,
            ) == Some(node_children_id(self.moves.tree()[n]))
    }
}

/// A replica whose sequences, links and birth places tell where its nodes stand and what
/// they were created under, and whose nodes hang where the moves put them, has the links,
/// the places, the moves and the figures that a reader of its bytes works out. So its
/// snapshots re-encode to the same bytes.
pub proof fn law_replicas_that_tell_are_settled(d: DocV)
    requires
        d.tree.tells_places(),
        d.tree.tells_base(),
        d.tree.hangs_settled(),
        d.tree.places_once(),
        d.tree.places_apart(),
        d.tree.bounded_stores(),
        d.tree.moves.log.dom().finite(),
        d.covers_waiting(),
        d.tree.figures_cover(d.tree.move_log()),
    ensures
        d.settled(),
        d.tree.tells_awaiting() ==> d.placed_alike(),
{
    let t = d.tree;
    let s = t.with_places_sorted();
    let ops = held_in_order(d.buffer);
    let log = t.move_log();
    let f = t.written().with_flags();
    lemma_floor(t, log);
    lemma_waiting_covered(d, f);
    let r = made_whole(d.written(), ops);
    assert(r == f.restored(log));
    lemma_written_partly(t);
    lemma_sorted_tells(t);
    assert(s.placements.dom() =~= t.placements.dom());
    lemma_births(s, f);
    let a = f.with_births();
    let blank = TreeV { moves: MovesV::empty(), ..s };
    assert(f.texts.dom() =~= t.texts.dom());
    assert(tell_alike(a, blank));
    lemma_reseeded_alike(a, blank);
    let b = a.reseeded();
    reveal(TreeV::with_unplaced);
    let c = b.with_unplaced();
    let q = ordered::<Stamp>(t.moves.log.dom());
    lemma_ordered_exists::<Stamp>(t.moves.log.dom());
    assert(c.moves.log =~= Map::empty());
    lemma_log_back(c, t.moves.log, q);
    let e = c.with_log(log);
    assert(e.moves.log =~= t.moves.log) by {
        assert forall|x: Stamp| e.moves.log.dom().contains(x) <==> t.moves.log.dom().contains(x) by {
            assert(q.to_set().contains(x) <==> t.moves.log.dom().contains(x));
        }
    }
    assert(e.moves == t.moves);
    let tree = t.moves.tree();
    reveal(TreeV::refold);
    let nodes = ordered::<ElementId>(e.placements.dom());
    lemma_ordered_exists::<ElementId>(e.placements.dom());
    assert forall|i: int| 0 <= i < nodes.len() implies (tree.dom().contains(#[trigger] nodes[i])
        ==> link_of(e.parents, nodes[i]) == Some(node_children_id(tree[nodes[i]]))) by {
        assert(nodes.to_set().contains(nodes[i]));
        assert(t.placements.dom().contains(nodes[i]));
    }
    lemma_stays(e, tree, nodes);
    assert(r == e.settle_all(tree, nodes));
    assert(mirrors(s, r)) by {
        assert forall|l: ElementId| #[trigger] s.lists.dom().contains(l) implies same_items(
            s.lists[l],
            r.lists[l],
        ) by {
            assert(same_items(s.lists[l], a.lists[l]));
            assert(same_items(e.lists[l], r.lists[l]));
        }
    }
    lemma_sorted_spelling(t);
    lemma_same_spelling(s, r);
    assert(r.placements.dom() == t.placements.dom());
    assert(a.revealed == f.revealed);
    assert(f.revealed =~= Set::empty());
    assert forall|n: ElementId| #[trigger] b.awaits(n) == t.awaits(n) by {
        assert(b.parents == t.parents && b.placements.dom() == t.placements.dom());
        assert(b.lists.dom() == t.lists.dom());
    }
    assert(b.xml_elements.dom() == t.xml_elements.dom() && b.texts.dom() == t.texts.dom());
    if t.tells_awaiting() {
        assert(r.revealed =~= t.revealed);
    }
}

/// What is spelled out does not depend on the order places are kept in.
proof fn lemma_sorted_spelling(t: TreeV)
    requires
        t.places_once(),
        t.places_apart(),
    ensures
        t.with_places_sorted().written_places() == t.written_places(),
        t.with_places_sorted().written_index() == t.written_index(),
        t.with_places_sorted().places_apart(),
{
    let u = t.with_places_sorted();
    assert forall|n: ElementId, p: Placement| #[trigger] u.spells(n, p) == t.spells(n, p) by {
        if t.placements.dom().contains(n) {
            lemma_sorted(t, n);
        }
    }
    assert forall|n: ElementId| #[trigger] t.placements.dom().contains(n) implies is_spelled(
        u,
        u.placements[n],
    ) == is_spelled(t, t.placements[n]) && u.placements[n].to_set() == t.placements[n].to_set() by {
        lemma_sorted(t, n);
    }
    assert(u.written_places() =~= t.written_places());
    let x = u.written_index();
    let y = t.written_index();
    assert(u.places_apart()) by {
        assert forall|a: ElementId, b: ElementId, p: Placement| #[trigger]
            u.spells(a, p) && #[trigger] u.spells(b, p) implies a == b by {
            assert(t.spells(a, p) && t.spells(b, p));
        }
    }
    assert forall|p: Placement| #[trigger] x.dom().contains(p) == y.dom().contains(p) && (
    x.dom().contains(p) ==> x[p] == y[p]) by {
        if exists|n: ElementId| #[trigger] u.spells(n, p) {
            let n = choose|n: ElementId| #[trigger] u.spells(n, p);
            assert(t.spells(n, p));
            let m = choose|m: ElementId| #[trigger] t.spells(m, p);
            assert(x[p] == n);
            assert(y[p] == m);
        }
        if exists|n: ElementId| #[trigger] t.spells(n, p) {
            let n = choose|n: ElementId| #[trigger] t.spells(n, p);
            assert(u.spells(n, p));
        }
    }
    assert(x =~= y);
}

// --- after a move ---

proof fn lemma_hung(t: TreeV, tree: Map<ElementId, ElementId>, q: Seq<ElementId>)
    ensures
        ({
            let u = t.settle_all(tree, q);
            &&& u == (TreeV { lists: u.lists, parents: u.parents, ..t })
            &&& forall|i: int|
                0 <= i < q.len() ==> (tree.dom().contains(#[trigger] q[i]) ==> link_of(
                    u.parents,
                    q[i],
                ) == Some(node_children_id(tree[q[i]])))
        }),
    decreases q.len(),
{
    reveal(TreeV::settle);
    if q.len() > 0 {
        let h = q.drop_last();
        let n = q.last();
        lemma_hung(t, tree, h);
        assert(q[q.len() - 1] == n);
        let u = t.settle_all(tree, h);
        let v = t.settle_all(tree, q);
        if tree.dom().contains(n) {
            let list = node_children_id(tree[n]);
            let places = u.placements[n];
            let live = if u.any_tombstoned(places) {
                None
            } else {
                latest_in(places, list)
            };
            lemma_only(u, places, list, live);
        }
        assert forall|i: int| 0 <= i < q.len() implies (tree.dom().contains(#[trigger] q[i])
            ==> link_of(v.parents, q[i]) == Some(node_children_id(tree[q[i]]))) by {
            if i < h.len() {
                assert(h[i] == q[i]);
            }
        }
    }
}

/// A move, or the deletion of where a movable node stands, leaves every placed node hanging
/// off the children of where the moves put it.
pub proof fn law_a_move_settles_every_node(t: TreeV, op: OpV)
    requires
        t.placements.dom().finite(),
        t.takes_settling(op),
    ensures
        t.apply_kind(op.target, op.kind, op.stamp, op.id.client).hangs_settled(),
{
    lemma_settling_applied(t, op);
    let s = loosened(t, op);
    if op.kind is XmlMove {
        lemma_placed(
            t,
            op.kind->XmlMove_node,
            Placement { list: op.target, stamp: op.stamp },
        );
    }
    reveal(TreeV::refold);
    let q = ordered::<ElementId>(s.placements.dom());
    lemma_ordered_exists::<ElementId>(s.placements.dom());
    lemma_hung(s, s.moves.tree(), q);
    let u = t.apply_kind(op.target, op.kind, op.stamp, op.id.client);
    assert forall|n: ElementId| #[trigger]
        u.placements.dom().contains(n) && u.moves.tree().dom().contains(n) implies link_of(
        u.parents,
        n,
    ) == Some(node_children_id(u.moves.tree()[n])) by {
        assert(q.to_set().contains(n));
        let i = q.index_of(n);
        assert(q[i] == n);
    }
}

} // verus!
