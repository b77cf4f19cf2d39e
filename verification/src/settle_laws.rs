//! Settling placements and editing commute: a move, or the deletion of a movable node's
//! place, leaves the same state whether an edit elsewhere comes before it or after.

use crate::anchor::Anchor;
use crate::annot::Placement;
use crate::commute::{
    body, born, child_container, drops, edits_in_place, effect, lemma_admitted, lemma_effect,
    lemma_in_place, lemma_plain_takes, lemma_runs_commute, lemma_same_effect, lemma_writes_concat,
    lemma_writes_one, lemma_writes_two, links_after, lists_after, puts, WriteV,
};
use crate::doc::DocV;
use crate::element::ElementV;
use crate::elementid::ElementId;
use crate::identity::{spec_payload_id, spec_ranged_id, spec_span, spec_xml_child_id};
use crate::list::{list_delete, list_insert, list_set_away, ListV};
use crate::list_laws::{law_insert_and_delete_commute, law_inserts_commute};
use crate::list_state::empty_list;
use crate::move_laws::{
    law_concurrent_moves_converge, lemma_latest, lemma_only, lemma_placed, lemma_settling_applied,
    loosened,
};
use crate::op::{OpKindV, OpV};
use crate::ranged::RangedInitV;
use crate::stamp::Stamp;
use crate::table::{lemma_ordered_exists, lemma_rises_unique, ordered, rises, Key};
use crate::tree::{latest_in, ContainerV, TreeV};
use crate::treemove::{acyclic, lemma_added_leaves, link_of, MovesV};
use crate::xml::{node_attrs_id, node_children_id};
use vstd::prelude::*;

verus! {

// --- a write beside what settles ---

/// The item of a sequence that a write puts or drops.
pub open spec fn item_of(w: WriteV) -> Option<Placement> {
    match w {
        WriteV::ListPut { list, id, .. } => Some(Placement { list, stamp: id }),
        WriteV::ListDrop { list, id } => Some(Placement { list, stamp: id }),
        _ => None,
    }
}

/// A sequence after a write.
spec fn list_written(l: ListV, at: ElementId, w: WriteV) -> ListV {
    match w {
        WriteV::ListPut { list, id, value, anchor } => if list == at {
            list_insert(l, id, value, anchor)
        } else {
            l
        },
        WriteV::ListDrop { list, id } => if list == at {
            list_delete(l, id)
        } else {
            l
        },
        _ => l,
    }
}

proof fn lemma_list_after(m: Map<ElementId, ListV>, w: WriteV, at: ElementId)
    ensures
        lists_after(m, w).dom().contains(at) == (m.dom().contains(at) || w == (WriteV::NewList {
            id: at,
        })),
        m.dom().contains(at) ==> lists_after(m, w)[at] == list_written(m[at], at, w),
        !m.dom().contains(at) && w == (WriteV::NewList { id: at }) ==> lists_after(m, w)[at]
            == empty_list(at),
{
}

/// An item suppressed or re-instated, and a write to another.
proof fn lemma_away_written(l: ListV, at: ElementId, w: WriteV, s: Stamp, away: bool)
    requires
        item_of(w) != Some(Placement { list: at, stamp: s }),
    ensures
        list_set_away(list_written(l, at, w), s, away) == list_written(
            list_set_away(l, s, away),
            at,
            w,
        ),
        list_written(l, at, w).is_dead(s) == l.is_dead(s),
{
    let a = list_set_away(list_written(l, at, w), s, away);
    let b = list_written(list_set_away(l, s, away), at, w);
    assert(a.items =~= b.items);
    assert(a.places == b.places);
    assert(a == b);
}

/// A place suppressed or re-instated, and a write to another.
proof fn lemma_away_write(t: TreeV, w: WriteV, p: Placement, away: bool)
    requires
        item_of(w) != Some(p),
    ensures
        t.write(w).with_away(p, away) == t.with_away(p, away).write(w),
        t.write(w).is_tombstoned(p) == t.is_tombstoned(p),
{
    let x = t.write(w).with_away(p, away).lists;
    let y = t.with_away(p, away).write(w).lists;
    let m = t.with_away(p, away).lists;
    lemma_list_after(t.lists, w, p.list);
    lemma_list_after(m, w, p.list);
    if t.lists.dom().contains(p.list) {
        lemma_away_written(t.lists[p.list], p.list, w, p.stamp, away);
    }
    assert(list_set_away(empty_list(p.list), p.stamp, away) == empty_list(p.list));
    assert(!empty_list(p.list).is_dead(p.stamp));
    assert forall|l: ElementId| #[trigger] x.dom().contains(l) == y.dom().contains(l) && (
    x.dom().contains(l) ==> x[l] == y[l]) by {
        lemma_list_after(t.lists, w, l);
        lemma_list_after(m, w, l);
    }
    assert(x =~= y);
}

proof fn lemma_only_write(
    t: TreeV,
    w: WriteV,
    places: Seq<Placement>,
    list: ElementId,
    live: Option<Stamp>,
)
    requires
        forall|i: int| 0 <= i < places.len() ==> item_of(w) != Some(#[trigger] places[i]),
    ensures
        t.write(w).with_only(places, list, live) == t.with_only(places, list, live).write(w),
    decreases places.len(),
{
    if places.len() > 0 {
        let h = places.drop_last();
        let p = places.last();
        assert(places[places.len() - 1] == p);
        assert forall|i: int| 0 <= i < h.len() implies item_of(w) != Some(#[trigger] h[i]) by {
            assert(h[i] == places[i]);
        }
        lemma_only_write(t, w, h, list, live);
        lemma_away_write(t.with_only(h, list, live), w, p, !(p.list == list && live == Some(p.stamp)));
    }
}

/// Whether a write is to no placed node: to none of its places, not of a new one, and not
/// to what it hangs off.
pub open spec fn beside(t: TreeV, w: WriteV) -> bool {
    &&& w matches WriteV::Place { node, .. } ==> !t.placements.dom().contains(node)
    &&& w matches WriteV::Link { child, .. } ==> !t.placements.dom().contains(child)
    &&& w matches WriteV::Home { child, .. } ==> !t.placements.dom().contains(child)
    &&& item_of(w) matches Some(p) ==> !t.all_places().contains(p)
}

/// Whether one state has every place that another has.
spec fn same_places(t: TreeV, u: TreeV) -> bool {
    forall|n: ElementId| #[trigger]
        t.placements.dom().contains(n) ==> u.placements.dom().contains(n) && u.placements[n]
            == t.placements[n]
}

proof fn lemma_settle_write(
    base: TreeV,
    t: TreeV,
    w: WriteV,
    tree: Map<ElementId, ElementId>,
    n: ElementId,
)
    requires
        base.placements.dom().contains(n),
        same_places(base, t),
        beside(base, w),
    ensures
        t.write(w).settle(tree, n) == t.settle(tree, n).write(w),
{
    reveal(TreeV::settle);
    if tree.dom().contains(n) {
        let list = node_children_id(tree[n]);
        let places = t.placements[n];
        let u = t.write(w);
        assert(u.placements[n] == places);
        assert forall|i: int| 0 <= i < places.len() implies item_of(w) != Some(
            #[trigger] places[i],
        ) && u.is_tombstoned(places[i]) == t.is_tombstoned(places[i]) by {
            assert(places.contains(places[i]));
            assert(base.placements[n].contains(places[i]));
            assert(base.all_places().contains(places[i]));
            lemma_away_write(t, w, places[i], true);
        }
        assert(u.any_tombstoned(places) == t.any_tombstoned(places)) by {
            if t.any_tombstoned(places) {
                let i = choose|i: int| 0 <= i < places.len() && t.is_tombstoned(#[trigger] places[i]);
                assert(u.is_tombstoned(places[i]));
            }
            if u.any_tombstoned(places) {
                let i = choose|i: int| 0 <= i < places.len() && u.is_tombstoned(#[trigger] places[i]);
                assert(t.is_tombstoned(places[i]));
            }
        }
        let live = if t.any_tombstoned(places) {
            None
        } else {
            latest_in(places, list)
        };
        lemma_only_write(t, w, places, list, live);
        lemma_only(t, places, list, live);
        let v = t.with_only(places, list, live);
        assert(links_after(v.parents, w).insert(n, list) =~= links_after(
            v.parents.insert(n, list),
            w,
        ));
    }
}

/// Settling changes no more than the sequences' items, and what nodes hang off.
proof fn lemma_settle_keeps(t: TreeV, tree: Map<ElementId, ElementId>, n: ElementId)
    ensures
        ({
            let u = t.settle(tree, n);
            &&& u == (TreeV { lists: u.lists, parents: u.parents, ..t })
            &&& u.lists.dom() == t.lists.dom()
            &&& forall|x: ElementId| x != n ==> #[trigger] link_of(u.parents, x) == link_of(
                t.parents,
                x,
            )
        }),
{
    reveal(TreeV::settle);
    if tree.dom().contains(n) {
        let list = node_children_id(tree[n]);
        let places = t.placements[n];
        let live = if t.any_tombstoned(places) {
            None
        } else {
            latest_in(places, list)
        };
        lemma_only(t, places, list, live);
    }
}

proof fn lemma_settle_all_keeps(t: TreeV, tree: Map<ElementId, ElementId>, q: Seq<ElementId>)
    ensures
        ({
            let u = t.settle_all(tree, q);
            &&& u == (TreeV { lists: u.lists, parents: u.parents, ..t })
            &&& u.lists.dom() == t.lists.dom()
            &&& forall|x: ElementId|
                !q.contains(x) ==> #[trigger] link_of(u.parents, x) == link_of(t.parents, x)
        }),
    decreases q.len(),
{
    if q.len() > 0 {
        let h = q.drop_last();
        lemma_settle_all_keeps(t, tree, h);
        lemma_settle_keeps(t.settle_all(tree, h), tree, q.last());
        assert(q[q.len() - 1] == q.last());
        assert forall|x: ElementId| !q.contains(x) implies !h.contains(x) by {
            if h.contains(x) {
                assert(q[h.index_of(x)] == x);
            }
        }
    }
}

pub(crate) proof fn lemma_refold_keeps(t: TreeV)
    requires
        t.placements.dom().finite(),
    ensures
        ({
            let u = t.refold();
            &&& u == (TreeV { lists: u.lists, parents: u.parents, ..t })
            &&& u.lists.dom() == t.lists.dom()
            &&& forall|x: ElementId|
                !t.placements.dom().contains(x) ==> #[trigger] link_of(u.parents, x) == link_of(
                    t.parents,
                    x,
                )
        }),
{
    reveal(TreeV::refold);
    lemma_ordered_exists::<ElementId>(t.placements.dom());
    assert forall|x: ElementId| !t.placements.dom().contains(x) implies !ordered::<ElementId>(
        t.placements.dom(),
    ).contains(x) by {
        assert(ordered::<ElementId>(t.placements.dom()).to_set().contains(x)
            == t.placements.dom().contains(x));
    }
    lemma_settle_all_keeps(t, t.moves.tree(), ordered::<ElementId>(t.placements.dom()));
}

proof fn lemma_settle_all_write(
    base: TreeV,
    t: TreeV,
    w: WriteV,
    tree: Map<ElementId, ElementId>,
    q: Seq<ElementId>,
)
    requires
        forall|i: int| 0 <= i < q.len() ==> base.placements.dom().contains(#[trigger] q[i]),
        same_places(base, t),
        beside(base, w),
    ensures
        t.write(w).settle_all(tree, q) == t.settle_all(tree, q).write(w),
    decreases q.len(),
{
    if q.len() > 0 {
        let h = q.drop_last();
        assert forall|i: int| 0 <= i < h.len() implies base.placements.dom().contains(
            #[trigger] h[i],
        ) by {
            assert(h[i] == q[i]);
        }
        lemma_settle_all_write(base, t, w, tree, h);
        lemma_settle_all_keeps(t, tree, h);
        assert(q[q.len() - 1] == q.last());
        lemma_settle_write(base, t.settle_all(tree, h), w, tree, q.last());
    }
}

/// Settling reads only the effective parents of the nodes it settles.
proof fn lemma_settle_all_agree(
    t: TreeV,
    a: Map<ElementId, ElementId>,
    b: Map<ElementId, ElementId>,
    q: Seq<ElementId>,
)
    requires
        forall|i: int|
            0 <= i < q.len() ==> a.dom().contains(#[trigger] q[i]) && b.dom().contains(q[i])
                && a[q[i]] == b[q[i]],
    ensures
        t.settle_all(a, q) == t.settle_all(b, q),
    decreases q.len(),
{
    reveal(TreeV::settle);
    if q.len() > 0 {
        let h = q.drop_last();
        assert forall|i: int| 0 <= i < h.len() implies a.dom().contains(#[trigger] h[i])
            && b.dom().contains(h[i]) && a[h[i]] == b[h[i]] by {
            assert(h[i] == q[i]);
        }
        lemma_settle_all_agree(t, a, b, h);
        assert(q[q.len() - 1] == q.last());
    }
}

// --- writes beside what settles ---

impl TreeV {
    /// Whether where nodes were created makes a tree in which every movable node has its
    /// place.
    pub open spec fn grounded(self) -> bool {
        &&& self.rooted()
        &&& self.moves.base.dom().finite()
        &&& self.moves.log.dom().finite()
        &&& acyclic(self.moves.base)
    }

    /// Whether a write keeps what settling reads: it is to no placed node, and makes no
    /// node that something already hangs off.
    pub open spec fn unsettling(self, w: WriteV) -> bool {
        &&& beside(self, w)
        &&& w matches WriteV::Link { child, parent } ==> self.grafts(child, parent)
        &&& w matches WriteV::Base { child, parent } ==> self.grafts(child, parent)
    }

    /// Whether making a node under a parent is not news, or nothing hangs off it yet.
    pub open spec fn grafts(self, child: ElementId, parent: ElementId) -> bool {
        if self.moves.base.dom().contains(child) {
            self.moves.base[child] == parent
        } else {
            self.moves.unhung(child)
        }
    }
}

/// What writes that unsettle nothing leave of the places, and of where nodes were created.
proof fn lemma_writes_keep(t: TreeV, ws: Seq<WriteV>)
    requires
        t.moves.base.dom().finite(),
        forall|i: int| 0 <= i < ws.len() ==> t.unsettling(#[trigger] ws[i]),
    ensures
        ({
            let u = t.writes(ws);
            &&& same_places(t, u)
            &&& (forall|i: int| 0 <= i < ws.len() ==> !(#[trigger] ws[i] is Place))
                ==> u.placements == t.placements
            &&& u.moves.log == t.moves.log
            &&& u.moves.base.dom().finite()
            &&& t.moves.base.submap_of(u.moves.base)
            &&& forall|x: ElementId| #[trigger]
                u.moves.base.dom().contains(x) && !t.moves.base.dom().contains(x)
                    ==> t.moves.unhung(x)
        }),
    decreases ws.len(),
{
    if ws.len() > 0 {
        let h = ws.drop_last();
        assert forall|i: int| 0 <= i < h.len() implies t.unsettling(#[trigger] h[i]) by {
            assert(h[i] == ws[i]);
        }
        lemma_writes_keep(t, h);
        assert(ws[ws.len() - 1] == ws.last());
        assert(t.unsettling(ws.last()));
        if forall|i: int| 0 <= i < ws.len() ==> !(#[trigger] ws[i] is Place) {
            assert forall|i: int| 0 <= i < h.len() implies !(#[trigger] h[i] is Place) by {
                assert(h[i] == ws[i]);
            }
        }
    }
}

proof fn lemma_settle_all_writes(
    t: TreeV,
    ws: Seq<WriteV>,
    tree: Map<ElementId, ElementId>,
    q: Seq<ElementId>,
)
    requires
        t.moves.base.dom().finite(),
        forall|i: int| 0 <= i < q.len() ==> t.placements.dom().contains(#[trigger] q[i]),
        forall|i: int| 0 <= i < ws.len() ==> t.unsettling(#[trigger] ws[i]),
    ensures
        t.writes(ws).settle_all(tree, q) == t.settle_all(tree, q).writes(ws),
    decreases ws.len(),
{
    if ws.len() > 0 {
        let h = ws.drop_last();
        assert forall|i: int| 0 <= i < h.len() implies t.unsettling(#[trigger] h[i]) by {
            assert(h[i] == ws[i]);
        }
        lemma_settle_all_writes(t, h, tree, q);
        lemma_writes_keep(t, h);
        assert(ws[ws.len() - 1] == ws.last());
        assert(t.unsettling(ws.last()));
        lemma_settle_all_write(t, t.writes(h), ws.last(), tree, q);
    }
}

/// The nodes placed before settled, and writes that unsettle nothing.
proof fn lemma_settled_writes(t: TreeV, ws: Seq<WriteV>)
    requires
        t.grounded(),
        forall|i: int| 0 <= i < ws.len() ==> t.unsettling(#[trigger] ws[i]),
    ensures
        t.writes(ws).settle_all(
            t.writes(ws).moves.tree(),
            ordered::<ElementId>(t.placements.dom()),
        ) == t.refold().writes(ws),
{
    reveal(TreeV::refold);
    let u = t.writes(ws);
    lemma_writes_keep(t, ws);
    let q = ordered::<ElementId>(t.placements.dom());
    lemma_ordered_exists::<ElementId>(t.placements.dom());
    assert forall|i: int| 0 <= i < q.len() implies t.placements.dom().contains(#[trigger] q[i]) by {
        assert(q.to_set().contains(q[i]));
    }
    let a = t.moves.tree();
    let b = u.moves.tree();
    lemma_added_leaves(t.moves, u.moves.base);
    assert(u.moves == (MovesV { base: u.moves.base, ..t.moves }));
    assert forall|i: int| 0 <= i < q.len() implies a.dom().contains(#[trigger] q[i])
        && b.dom().contains(q[i]) && a[q[i]] == b[q[i]] by {
        assert(t.moves.base.dom().contains(q[i]));
    }
    lemma_settle_all_writes(t, ws, b, q);
    lemma_settle_all_agree(t, a, b, q);
}

/// Everything settled, and writes that unsettle and place nothing.
proof fn lemma_refold_writes(t: TreeV, ws: Seq<WriteV>)
    requires
        t.grounded(),
        forall|i: int| 0 <= i < ws.len() ==> t.unsettling(#[trigger] ws[i]),
        forall|i: int| 0 <= i < ws.len() ==> !(#[trigger] ws[i] is Place),
    ensures
        t.writes(ws).refold() == t.refold().writes(ws),
{
    lemma_settled_writes(t, ws);
    lemma_writes_keep(t, ws);
    reveal(TreeV::refold);
}

// --- a child born where it settles ---

/// Whether a node has one place, renders there and hangs off its sequence.
spec fn seated(t: TreeV, child: ElementId, at: Placement) -> bool {
    &&& t.placements.dom().contains(child)
    &&& t.placements[child] == seq![at]
    &&& t.lists.dom().contains(at.list)
    &&& t.lists[at.list].items.dom().contains(at.stamp)
    &&& !t.lists[at.list].items[at.stamp].moved_away
    &&& link_of(t.parents, child) == Some(at.list)
}

/// A seated node is settled.
proof fn lemma_seated_settles(
    t: TreeV,
    tree: Map<ElementId, ElementId>,
    child: ElementId,
    at: Placement,
)
    requires
        seated(t, child, at),
        tree.dom().contains(child),
        node_children_id(tree[child]) == at.list,
    ensures
        t.settle(tree, child) == t,
{
    reveal(TreeV::settle);
    let places = t.placements[child];
    assert(places.contains(at)) by {
        assert(places[0] == at);
    }
    lemma_latest(places, at.list);
    assert(latest_in(places, at.list) == Some(at.stamp));
    assert(!t.any_tombstoned(places));
    assert(places.drop_last() =~= Seq::empty());
    assert(places.last() == at);
    let u = t.with_only(places, at.list, Some(at.stamp));
    assert(t.with_only(places.drop_last(), at.list, Some(at.stamp)) == t);
    assert(u == t.with_away(at, false));
    let l = t.lists[at.list];
    assert(list_set_away(l, at.stamp, false).items =~= l.items);
    assert(u.lists =~= t.lists);
    assert(u.parents.insert(child, at.list) =~= t.parents);
}

/// Settling another node leaves a node seated.
proof fn lemma_stays_seated(
    t: TreeV,
    tree: Map<ElementId, ElementId>,
    n: ElementId,
    child: ElementId,
    at: Placement,
)
    requires
        seated(t, child, at),
        n != child,
        !t.placements[n].contains(at),
    ensures
        seated(t.settle(tree, n), child, at),
{
    reveal(TreeV::settle);
    if tree.dom().contains(n) {
        let list = node_children_id(tree[n]);
        let places = t.placements[n];
        let live = if t.any_tombstoned(places) {
            None
        } else {
            latest_in(places, list)
        };
        lemma_only(t, places, list, live);
        let u = t.with_only(places, list, live);
        assert(u.lists.dom().contains(at.list));
        assert(t.lists[at.list].items.dom().contains(at.stamp));
    }
}

/// Nodes without one of them.
spec fn skipping(q: Seq<ElementId>, child: ElementId) -> Seq<ElementId>
    decreases q.len(),
{
    if q.len() == 0 {
        q
    } else if q.last() == child {
        skipping(q.drop_last(), child)
    } else {
        skipping(q.drop_last(), child).push(q.last())
    }
}

proof fn lemma_skipping(q: Seq<ElementId>, child: ElementId)
    requires
        rises::<ElementId>(q),
    ensures
        rises::<ElementId>(skipping(q, child)),
        forall|x: ElementId| #[trigger]
            skipping(q, child).contains(x) <==> q.contains(x) && x != child,
    decreases q.len(),
{
    if q.len() > 0 {
        let h = q.drop_last();
        let n = q.last();
        assert forall|i: int, j: int| 0 <= i < j < h.len() implies <ElementId as Key>::before(
            #[trigger] h[i],
            #[trigger] h[j],
        ) by {
            assert(h[i] == q[i] && h[j] == q[j]);
        }
        lemma_skipping(h, child);
        let f = skipping(h, child);
        let g = skipping(q, child);
        assert forall|x: ElementId| #[trigger] q.contains(x) <==> h.contains(x) || x == n by {
            if h.contains(x) {
                assert(q[h.index_of(x)] == x);
            }
            if x == n {
                assert(q[q.len() - 1] == x);
            }
            if q.contains(x) && x != n {
                assert(h[q.index_of(x)] == x);
            }
        }
        if n != child {
            assert forall|x: ElementId| #[trigger] g.contains(x) <==> f.contains(x) || x == n by {
                if f.contains(x) {
                    assert(g[f.index_of(x)] == x);
                }
                if x == n {
                    assert(g[g.len() - 1] == x);
                }
                if g.contains(x) && x != n {
                    assert(f[g.index_of(x)] == x);
                }
            }
            assert forall|i: int, j: int| 0 <= i < j < g.len() implies <ElementId as Key>::before(
                #[trigger] g[i],
                #[trigger] g[j],
            ) by {
                assert(g[i] == f[i]);
                if j < f.len() {
                    assert(g[j] == f[j]);
                } else {
                    assert(f.contains(f[i]));
                    assert(h.contains(f[i]));
                    let k = h.index_of(f[i]);
                    assert(q[k] == f[i] && q[q.len() - 1] == n);
                }
            }
        }
    }
}

/// Settling a seated node among others shows nowhere.
proof fn lemma_skipped(
    t: TreeV,
    tree: Map<ElementId, ElementId>,
    q: Seq<ElementId>,
    child: ElementId,
    at: Placement,
)
    requires
        seated(t, child, at),
        tree.dom().contains(child),
        node_children_id(tree[child]) == at.list,
        forall|i: int|
            0 <= i < q.len() ==> #[trigger] q[i] == child || !t.placements[q[i]].contains(at),
    ensures
        t.settle_all(tree, q) == t.settle_all(tree, skipping(q, child)),
        seated(t.settle_all(tree, q), child, at),
    decreases q.len(),
{
    if q.len() > 0 {
        let h = q.drop_last();
        let n = q.last();
        assert forall|i: int| 0 <= i < h.len() implies #[trigger] h[i] == child
            || !t.placements[h[i]].contains(at) by {
            assert(h[i] == q[i]);
        }
        lemma_skipped(t, tree, h, child, at);
        assert(q[q.len() - 1] == n);
        let u = t.settle_all(tree, h);
        lemma_settle_all_keeps(t, tree, h);
        if n == child {
            lemma_seated_settles(u, tree, child, at);
        } else {
            lemma_stays_seated(u, tree, n, child, at);
            let f = skipping(h, child);
            assert(f.push(n).drop_last() =~= f);
        }
    }
}

impl TreeV {
    /// Whether an op bears a movable child where it will settle: the child is new, its
    /// place too, and its sequence is that of the node it is made under.
    pub open spec fn bears_in_place(self, op: OpV) -> bool {
        op.kind matches OpKindV::XmlInsertChild { tag, .. } && {
            let child = spec_xml_child_id(op.target, op.stamp, child_container(tag).kind());
            &&& self.lists.dom().contains(op.target)
            &&& self.parents.dom().contains(op.target)
            &&& op.target == node_children_id(self.parents[op.target])
            &&& !self.movable(op.target)
            &&& !self.lists[op.target].places.dom().contains(op.stamp)
            &&& !self.placements.dom().contains(child)
            &&& !self.moves.base.dom().contains(child)
        }
    }
}

/// What materialising a movable node leaves of the places and of another sequence.
proof fn lemma_made(t: TreeV, child: ElementId, tag: Option<Seq<u8>>, list: ElementId)
    requires
        t.lists.dom().contains(list),
    ensures
        ({
            let u = t.writes(born(child, child_container(tag)));
            u.placements == t.placements && u.lists.dom().contains(list) && u.lists[list]
                == t.lists[list]
        }),
{
    let c = child_container(tag);
    match c {
        ContainerV::XmlElement(tag) => {
            let v = WriteV::NewElement { id: child, tag };
            let w = WriteV::NewMap { id: node_attrs_id(child) };
            let x = WriteV::NewList { id: node_children_id(child) };
            let y = WriteV::Link { child: node_attrs_id(child), parent: child };
            let z = WriteV::Link { child: node_children_id(child), parent: child };
            assert(born(child, c) =~= seq![v, w] + seq![x, y] + seq![z]);
            lemma_writes_concat(t, seq![v, w] + seq![x, y], seq![z]);
            lemma_writes_concat(t, seq![v, w], seq![x, y]);
            lemma_writes_two(t, v, w);
            lemma_writes_two(t.write(v).write(w), x, y);
            lemma_writes_one(t.write(v).write(w).write(x).write(y), z);
        },
        _ => {
            lemma_writes_one(t, WriteV::NewText { id: child });
        },
    }
}

/// A child born in place is seated, under the node its sequence is of.
proof fn lemma_born_seated(t: TreeV, op: OpV, owner: ElementId)
    requires
        op.kind is XmlInsertChild,
        t.lists.dom().contains(op.target),
        !t.lists[op.target].places.dom().contains(op.stamp),
        !t.placements.dom().contains(
            spec_xml_child_id(
                op.target,
                op.stamp,
                child_container(op.kind->XmlInsertChild_tag).kind(),
            ),
        ),
    ensures
        ({
            let child = spec_xml_child_id(
                op.target,
                op.stamp,
                child_container(op.kind->XmlInsertChild_tag).kind(),
            );
            let at = Placement { list: op.target, stamp: op.stamp };
            let u = t.writes(effect(op, Some(owner)));
            &&& seated(u, child, at)
            &&& u.placements == t.placements.insert(child, seq![at])
            &&& u.moves.base.dom().contains(child)
            &&& u.moves.base[child] == owner
        }),
{
    let tag = op.kind->XmlInsertChild_tag;
    let anchor = op.kind->XmlInsertChild_anchor;
    let list = op.target;
    let stamp = op.stamp;
    let c = child_container(tag);
    let child = spec_xml_child_id(list, stamp, c.kind());
    let at = Placement { list, stamp };
    let raise = WriteV::Raise { stamp, span: spec_span(op.kind) };
    let home = WriteV::Home { child, parent: list };
    let hold = WriteV::Hold { at, node: child };
    let put = WriteV::ListPut { list, id: stamp, value: c.handle(child), anchor };
    let place = WriteV::Place { node: child, at };
    let placed = WriteV::Placed { node: child };
    let base = WriteV::Base { child, parent: owner };
    let ws = effect(op, Some(owner));
    let made = seq![raise] + born(child, c);
    assert(ws =~= made + (seq![home, hold] + seq![put, place] + seq![placed, base]));
    lemma_writes_concat(t, made, seq![home, hold] + seq![put, place] + seq![placed, base]);
    lemma_writes_concat(t, seq![raise], born(child, c));
    lemma_writes_one(t, raise);
    lemma_made(t.write(raise), child, tag, list);
    let s = t.writes(made);
    lemma_writes_concat(s, seq![home, hold] + seq![put, place], seq![placed, base]);
    lemma_writes_concat(s, seq![home, hold], seq![put, place]);
    lemma_writes_two(s, home, hold);
    let x = s.write(home).write(hold);
    lemma_writes_two(x, put, place);
    let y = x.write(put).write(place);
    lemma_writes_two(y, placed, base);
    assert(Seq::<Placement>::empty().push(at) =~= seq![at]);
}

/// Everything settled, and a child born in place.
proof fn lemma_refold_bearing(t: TreeV, op: OpV)
    requires
        t.grounded(),
        t.bears_in_place(op),
        forall|i: int|
            0 <= i < effect(op, t.owner_of(op)).len() ==> t.unsettling(
                #[trigger] effect(op, t.owner_of(op))[i],
            ),
    ensures
        t.writes(effect(op, t.owner_of(op))).refold() == t.refold().writes(
            effect(op, t.owner_of(op)),
        ),
{
    let owner = t.parents[op.target];
    let tag = op.kind->XmlInsertChild_tag;
    let child = spec_xml_child_id(op.target, op.stamp, child_container(tag).kind());
    let at = Placement { list: op.target, stamp: op.stamp };
    let ws = effect(op, Some(owner));
    assert(ws == effect(op, t.owner_of(op)));
    let u = t.writes(ws);
    lemma_born_seated(t, op, owner);
    lemma_settled_writes(t, ws);
    lemma_writes_keep(t, ws);
    lemma_added_leaves(t.moves, u.moves.base);
    assert(u.moves == (MovesV { base: u.moves.base, ..t.moves }));
    let tree = u.moves.tree();
    assert(tree.dom().contains(child) && tree[child] == owner);
    assert(!t.all_places().contains(at)) by {
        lemma_bearing_puts(op, Some(owner));
    }
    let d = t.placements.dom();
    let q = ordered::<ElementId>(d.insert(child));
    lemma_ordered_exists::<ElementId>(d.insert(child));
    lemma_ordered_exists::<ElementId>(d);
    assert(u.placements.dom() =~= d.insert(child));
    assert forall|i: int| 0 <= i < q.len() implies #[trigger] q[i] == child
        || !u.placements[q[i]].contains(at) by {
        assert(q.to_set().contains(q[i]));
        if q[i] != child && u.placements[q[i]].contains(at) {
            assert(t.placements[q[i]].contains(at));
            assert(t.all_places().contains(at));
        }
    }
    lemma_skipped(u, tree, q, child, at);
    lemma_skipping(q, child);
    assert(skipping(q, child).to_set() =~= ordered::<ElementId>(d).to_set()) by {
        assert forall|x: ElementId| skipping(q, child).to_set().contains(x) <==> d.contains(x) by {
            assert(skipping(q, child).contains(x) <==> q.contains(x) && x != child);
            assert(q.to_set().contains(x) <==> d.insert(child).contains(x));
        }
    }
    lemma_rises_unique::<ElementId>(skipping(q, child), ordered::<ElementId>(d));
    reveal(TreeV::refold);
}

/// The item that bearing a child puts in.
proof fn lemma_bearing_puts(op: OpV, owner: Option<ElementId>)
    requires
        op.kind is XmlInsertChild,
    ensures
        exists|i: int|
            0 <= i < effect(op, owner).len() && item_of(#[trigger] effect(op, owner)[i]) == Some(
                Placement { list: op.target, stamp: op.stamp },
            ),
{
    let c = child_container(op.kind->XmlInsertChild_tag);
    let child = spec_xml_child_id(op.target, op.stamp, c.kind());
    let i: int = 1 + born(child, c).len() as int + 2;
    assert(item_of(effect(op, owner)[i]) == Some(
        Placement { list: op.target, stamp: op.stamp },
    ));
}

// --- an op that settles ---

impl TreeV {
    /// Whether a write keeps off an op that settles: it unsettles nothing, is to no place
    /// that a node holds or the op takes, and makes nothing of what the op moves.
    pub open spec fn keeps_off(self, w: WriteV, op: OpV) -> bool {
        &&& self.unsettling(w)
        &&& item_of(w) matches Some(p) ==> !self.placement_index.dom().contains(p)
        &&& op.kind matches OpKindV::XmlMove { node, .. } ==> {
            let p = Placement { list: op.target, stamp: op.stamp };
            let owner = self.parents[op.target];
            &&& item_of(w) != Some(p)
            &&& w matches WriteV::NewElement { id, .. } ==> id != node
            &&& w matches WriteV::NewText { id } ==> id != node
            &&& w matches WriteV::Await { node: n } ==> n != node
            &&& w matches WriteV::Placed { node: n } ==> n != node
            &&& w matches WriteV::Place { node: n, .. } ==> n != node
            &&& w matches WriteV::Hold { at, .. } ==> at != p
            &&& w matches WriteV::Home { child, .. } ==> child != node && child != op.target
            &&& w matches WriteV::Base { child, .. } ==> child == owner
                ==> self.moves.base.dom().contains(child)
            &&& w matches WriteV::Link { child, parent } ==> {
                &&& child != node
                &&& child == op.target ==> parent == owner
                &&& child == owner ==> self.moves.base.dom().contains(child)
            }
        }
    }
}

/// An item put in, and a write to another.
proof fn lemma_inserted_written(
    l: ListV,
    at: ElementId,
    w: WriteV,
    s: Stamp,
    e: ElementV,
    anchor: Anchor,
)
    requires
        item_of(w) != Some(Placement { list: at, stamp: s }),
    ensures
        list_insert(list_written(l, at, w), s, e, anchor) == list_written(
            list_insert(l, s, e, anchor),
            at,
            w,
        ),
{
    match w {
        WriteV::ListPut { list, id, value, anchor: other } => {
            if list == at {
                law_inserts_commute(l, s, e, anchor, id, value, other);
            }
        },
        WriteV::ListDrop { list, id } => {
            if list == at {
                law_insert_and_delete_commute(l, s, e, anchor, id);
            }
        },
        _ => {},
    }
}

/// An item deleted, and a write to another.
proof fn lemma_deleted_written(l: ListV, at: ElementId, w: WriteV, s: Stamp)
    requires
        item_of(w) != Some(Placement { list: at, stamp: s }),
    ensures
        list_delete(list_written(l, at, w), s) == list_written(list_delete(l, s), at, w),
{
    let a = list_delete(list_written(l, at, w), s);
    let b = list_written(list_delete(l, s), at, w);
    assert(a.items =~= b.items);
    assert(a == b);
}

/// A write that keeps off an op leaves it landing where it did.
proof fn lemma_loosened_write(t: TreeV, u: TreeV, op: OpV, w: WriteV)
    requires
        t.takes_settling(op),
        t.keeps_off(w, op),
        u.takes_settling(op),
        op.kind is XmlMove ==> u.parents[op.target] == t.parents[op.target] && u.node_handle(
            op.kind->XmlMove_node,
        ) == t.node_handle(op.kind->XmlMove_node),
    ensures
        u.write(w).takes_settling(op),
        op.kind is XmlMove ==> u.write(w).parents[op.target] == t.parents[op.target] && u.write(
            w,
        ).node_handle(op.kind->XmlMove_node) == t.node_handle(op.kind->XmlMove_node),
        loosened(u.write(w), op) == loosened(u, op).write(w),
{
    let v = u.write(w);
    let x = loosened(v, op);
    let y = loosened(u, op).write(w);
    assert(u.lists.dom().subset_of(v.lists.dom()));
    if let OpKindV::XmlMove { node, anchor } = op.kind {
        assert(v.node_handle(node) == u.node_handle(node));
        let e = u.node_handle(node)->Some_0;
        let l = u.lists[op.target];
        let m = loosened(u, op).lists;
        lemma_inserted_written(l, op.target, w, op.stamp, e, anchor);
        assert forall|k: ElementId| #[trigger] x.lists.dom().contains(k) == y.lists.dom().contains(
            k,
        ) && (x.lists.dom().contains(k) ==> x.lists[k] == y.lists[k]) by {
            lemma_list_after(u.lists, w, k);
            lemma_list_after(m, w, k);
        }
        assert(x.lists =~= y.lists);
        assert(x.revealed =~= y.revealed);
        assert(x.moves == y.moves);
        assert(x.placements =~= y.placements);
        assert(x.placement_index =~= y.placement_index);
    } else if let OpKindV::ListDelete { id } = op.kind {
        let l = u.lists[op.target];
        let m = loosened(u, op).lists;
        lemma_deleted_written(l, op.target, w, id);
        assert forall|k: ElementId| #[trigger] x.lists.dom().contains(k) == y.lists.dom().contains(
            k,
        ) && (x.lists.dom().contains(k) ==> x.lists[k] == y.lists[k]) by {
            lemma_list_after(u.lists, w, k);
            lemma_list_after(m, w, k);
        }
        assert(x.lists =~= y.lists);
    }
}

proof fn lemma_loosened_writes(t: TreeV, op: OpV, ws: Seq<WriteV>)
    requires
        t.takes_settling(op),
        forall|i: int| 0 <= i < ws.len() ==> t.keeps_off(#[trigger] ws[i], op),
    ensures
        t.writes(ws).takes_settling(op),
        op.kind is XmlMove ==> t.writes(ws).parents[op.target] == t.parents[op.target] && t.writes(
            ws,
        ).node_handle(op.kind->XmlMove_node) == t.node_handle(op.kind->XmlMove_node),
        loosened(t.writes(ws), op) == loosened(t, op).writes(ws),
    decreases ws.len(),
{
    if ws.len() > 0 {
        let h = ws.drop_last();
        assert forall|i: int| 0 <= i < h.len() implies t.keeps_off(#[trigger] h[i], op) by {
            assert(h[i] == ws[i]);
        }
        lemma_loosened_writes(t, op, h);
        assert(ws[ws.len() - 1] == ws.last());
        lemma_loosened_write(t, t.writes(h), op, ws.last());
    }
}

/// An op that settles leaves a state grounded, and what keeps off it unsettles nothing
/// there.
proof fn lemma_loosened_grounded(t: TreeV, op: OpV)
    requires
        t.grounded(),
        t.takes_settling(op),
    ensures
        loosened(t, op).grounded(),
        forall|w: WriteV| #[trigger] t.keeps_off(w, op) ==> loosened(t, op).unsettling(w),
{
    let u = loosened(t, op);
    if let OpKindV::XmlMove { node, .. } = op.kind {
        let p = Placement { list: op.target, stamp: op.stamp };
        lemma_placed(t, node, p);
        assert(t.moves.base.dom().contains(node));
        assert forall|n: ElementId|
            u.placements.dom().contains(n) || u.revealed.contains(n) implies #[trigger]
            u.moves.base.dom().contains(n) by {
            assert(t.placements.dom().contains(n) || t.revealed.contains(n));
        }
        assert forall|w: WriteV| #[trigger] t.keeps_off(w, op) implies u.unsettling(w) by {
            if let Some(z) = item_of(w) {
                if u.all_places().contains(z) {
                    let k = choose|k: ElementId|
                        u.placements.dom().contains(k) && #[trigger] u.placements[k].contains(z);
                    assert(t.with_placement(node, p).placements[k].contains(z));
                    assert(t.placements[k].contains(z));
                    assert(t.all_places().contains(z));
                }
            }
            if let WriteV::Link { child, parent } = w {
                if !t.moves.base.dom().contains(child) {
                    assert(t.moves.unhung(child));
                    assert(u.moves.unhung(child));
                }
            }
            if let WriteV::Base { child, parent } = w {
                if !t.moves.base.dom().contains(child) {
                    assert(t.moves.unhung(child));
                    assert(u.moves.unhung(child));
                }
            }
        }
    } else {
        assert forall|w: WriteV| #[trigger] t.keeps_off(w, op) implies u.unsettling(w) by {
            assert(u.all_places() =~= t.all_places());
        }
    }
}

// --- what displacement says stands apart ---

proof fn lemma_plain_away(t: TreeV, p: Placement, away: bool)
    ensures
        t.plain().with_away(p, away) == t.with_away(p, away).plain(),
        t.plain().is_tombstoned(p) == t.is_tombstoned(p),
{
    assert(t.plain().with_away(p, away).lists =~= t.with_away(p, away).plain().lists);
}

proof fn lemma_plain_only(
    t: TreeV,
    places: Seq<Placement>,
    list: ElementId,
    live: Option<Stamp>,
)
    ensures
        t.plain().with_only(places, list, live) == t.with_only(places, list, live).plain(),
    decreases places.len(),
{
    if places.len() > 0 {
        let p = places.last();
        lemma_plain_only(t, places.drop_last(), list, live);
        lemma_plain_away(
            t.with_only(places.drop_last(), list, live),
            p,
            !(p.list == list && live == Some(p.stamp)),
        );
    }
}

proof fn lemma_plain_settle_all(t: TreeV, tree: Map<ElementId, ElementId>, q: Seq<ElementId>)
    ensures
        t.plain().settle_all(tree, q) == t.settle_all(tree, q).plain(),
    decreases q.len(),
{
    reveal(TreeV::settle);
    if q.len() > 0 {
        lemma_plain_settle_all(t, tree, q.drop_last());
        let u = t.settle_all(tree, q.drop_last());
        let n = q.last();
        if tree.dom().contains(n) {
            let list = node_children_id(tree[n]);
            let places = u.placements[n];
            assert forall|p: Placement| u.plain().is_tombstoned(p) == #[trigger] u.is_tombstoned(
                p,
            ) by {
                lemma_plain_away(u, p, true);
            }
            assert(u.plain().any_tombstoned(places) == u.any_tombstoned(places)) by {
                if u.any_tombstoned(places) {
                    let i = choose|i: int|
                        0 <= i < places.len() && u.is_tombstoned(#[trigger] places[i]);
                    assert(u.plain().is_tombstoned(places[i]));
                }
                if u.plain().any_tombstoned(places) {
                    let i = choose|i: int|
                        0 <= i < places.len() && u.plain().is_tombstoned(#[trigger] places[i]);
                    assert(u.is_tombstoned(places[i]));
                }
            }
            let live = if u.any_tombstoned(places) {
                None
            } else {
                latest_in(places, list)
            };
            lemma_plain_only(u, places, list, live);
        }
    }
}

pub(crate) proof fn lemma_plain_loosened(t: TreeV, op: OpV)
    requires
        t.takes_settling(op),
    ensures
        t.plain().takes_settling(op),
        loosened(t.plain(), op).refold() == loosened(t, op).refold().plain(),
{
    reveal(TreeV::refold);
    let u = loosened(t, op);
    assert(t.plain().takes_settling(op));
    assert(loosened(t.plain(), op) == u.plain()) by {
        assert(loosened(t.plain(), op).lists =~= u.plain().lists);
    }
    lemma_plain_settle_all(u, u.moves.tree(), ordered::<ElementId>(u.placements.dom()));
}

/// What an op that settles does, as a write.
pub(crate) proof fn lemma_settling(t: TreeV, op: OpV)
    requires
        t.placements.dom().finite(),
        t.takes_settling(op),
    ensures
        t.apply_kind(op.target, op.kind, op.stamp, op.id.client) == loosened(t, op).refold().write(
            WriteV::Raise { stamp: op.stamp, span: spec_span(op.kind) },
        ),
        loosened(t, op).placements.dom().finite(),
{
    if op.kind is XmlMove {
        lemma_placed(
            t,
            op.kind->XmlMove_node,
            Placement { list: op.target, stamp: op.stamp },
        );
    }
    lemma_refold_keeps(loosened(t, op));
    lemma_settling_applied(t, op);
}

impl TreeV {
    /// Whether an edit keeps off an op that settles: what it writes does, and a child it
    /// bears is born where it settles.
    pub open spec fn edit_keeps_off(self, edit: OpV, op: OpV) -> bool {
        let ws = effect(edit, self.owner_of(edit));
        &&& forall|i: int| 0 <= i < ws.len() ==> self.keeps_off(#[trigger] ws[i], op)
        &&& edit.kind is XmlInsertChild ==> self.bears_in_place(edit)
    }
}

/// An edit that keeps off what settles still lands, and writes the same.
proof fn lemma_still_takes(t: TreeV, a: OpV, b: OpV)
    requires
        t.placements.dom().finite(),
        t.takes_settling(a),
        t.takes(b),
        t.edit_keeps_off(b, a),
    ensures
        t.apply_kind(a.target, a.kind, a.stamp, a.id.client).takes(b),
        effect(b, t.apply_kind(a.target, a.kind, a.stamp, a.id.client).owner_of(b)) == effect(
            b,
            t.owner_of(b),
        ),
{
    let x = t.apply_kind(a.target, a.kind, a.stamp, a.id.client);
    lemma_settling(t, a);
    lemma_refold_keeps(loosened(t, a));
    let ws = effect(b, t.owner_of(b));
    assert(x.lists.dom() =~= t.lists.dom());
    if let OpKindV::ListDelete { id } = b.kind {
        assert(ws[1] == (WriteV::ListDrop { list: b.target, id }));
        assert(t.keeps_off(ws[1], a));
    }
    if b.kind is XmlInsertChild {
        lemma_bearing_puts(b, t.owner_of(b));
        let i = choose|i: int|
            0 <= i < ws.len() && item_of(#[trigger] ws[i]) == Some(
                Placement { list: b.target, stamp: b.stamp },
            );
        assert(t.keeps_off(ws[i], a));
        if a.kind is XmlMove {
            lemma_placed(
                t,
                a.kind->XmlMove_node,
                Placement { list: a.target, stamp: a.stamp },
            );
        }
        assert(link_of(x.parents, b.target) == link_of(t.parents, b.target));
    }
    lemma_same_effect(b, x.owner_of(b), t.owner_of(b));
}

/// Everything settled once an op has loosened it, and an edit that keeps off.
proof fn lemma_refold_edit(p: TreeV, a: OpV, b: OpV)
    requires
        p.grounded(),
        p.takes_settling(a),
        p.edit_keeps_off(b, a),
    ensures
        loosened(p, a).writes(effect(b, p.owner_of(b))).refold() == loosened(p, a).refold().writes(
            effect(b, p.owner_of(b)),
        ),
{
    let ws = effect(b, p.owner_of(b));
    let s = loosened(p, a);
    lemma_loosened_grounded(p, a);
    assert forall|i: int| 0 <= i < ws.len() implies s.unsettling(#[trigger] ws[i]) by {
        assert(p.keeps_off(ws[i], a));
    }
    if b.kind is XmlInsertChild {
        lemma_bears_loosened(p, a, b);
        lemma_refold_bearing(s, b);
    } else {
        assert forall|i: int| 0 <= i < ws.len() implies !(#[trigger] ws[i] is Place) by {
            lemma_effect_places(b, p.owner_of(b), i);
        }
        lemma_refold_writes(s, ws);
    }
}

/// A child is born in place after an op that its birth keeps off, too.
proof fn lemma_bears_loosened(p: TreeV, a: OpV, b: OpV)
    requires
        p.takes_settling(a),
        p.edit_keeps_off(b, a),
        b.kind is XmlInsertChild,
    ensures
        loosened(p, a).bears_in_place(b),
        loosened(p, a).owner_of(b) == p.owner_of(b),
{
    let ws = effect(b, p.owner_of(b));
    let at = Placement { list: b.target, stamp: b.stamp };
    let c = child_container(b.kind->XmlInsertChild_tag);
    let child = spec_xml_child_id(b.target, b.stamp, c.kind());
    lemma_bearing_puts(b, p.owner_of(b));
    let i = choose|i: int| 0 <= i < ws.len() && item_of(#[trigger] ws[i]) == Some(at);
    assert(p.keeps_off(ws[i], a));
    if a.kind is XmlMove {
        let j: int = 1 + born(child, c).len() as int + 3;
        assert(ws[j] == (WriteV::Place { node: child, at }));
        assert(p.keeps_off(ws[j], a));
        lemma_placed(p, a.kind->XmlMove_node, Placement { list: a.target, stamp: a.stamp });
    }
}

/// Only bearing a child places a node.
proof fn lemma_effect_places(op: OpV, owner: Option<ElementId>, i: int)
    requires
        0 <= i < effect(op, owner).len(),
        !(op.kind is XmlInsertChild),
    ensures
        !(effect(op, owner)[i] is Place),
{
    let ws = body(op.target, op.kind, op.stamp, op.id.client, owner);
    if i > 0 {
        let j = i - 1;
        assert(effect(op, owner)[i] == ws[j]);
        match op.kind {
            OpKindV::RangedCreate { payload, .. } => {
                if let RangedInitV::Composite(kind) = payload {
                    let id = spec_payload_id(spec_ranged_id(op.stamp), kind);
                    if let Some(c) = TreeV::payload_container(kind) {
                        if j < born(id, c).len() {
                            assert(ws[j] == born(id, c)[j]);
                        }
                    }
                }
            },
            OpKindV::XmlReveal { node, tag } => {
                if j < born(node, child_container(tag)).len() {
                    assert(ws[j] == born(node, child_container(tag))[j]);
                }
            },
            _ => {},
        }
    }
}

/// An op that settles, and then an edit that keeps off it.
proof fn lemma_settle_then_edit(t: TreeV, a: OpV, b: OpV)
    requires
        t.grounded(),
        t.takes_settling(a),
        t.takes(b),
        t.edit_keeps_off(b, a),
    ensures
        t.apply_kind(a.target, a.kind, a.stamp, a.id.client).apply_kind(
            b.target,
            b.kind,
            b.stamp,
            b.id.client,
        ).plain() == loosened(t.plain(), a).refold().writes(effect(b, t.owner_of(b))).write(
            WriteV::Raise { stamp: a.stamp, span: spec_span(a.kind) },
        ),
{
    let ws = effect(b, t.owner_of(b));
    let raise = WriteV::Raise { stamp: a.stamp, span: spec_span(a.kind) };
    let x = t.apply_kind(a.target, a.kind, a.stamp, a.id.client);
    lemma_settling(t, a);
    lemma_plain_loosened(t, a);
    let s = loosened(t.plain(), a).refold();
    assert(x.plain() == s.write(raise));
    lemma_still_takes(t, a, b);
    lemma_effect(x, b);
    assert(s.takes(b)) by {
        lemma_plain_takes(x, b);
    }
    assert forall|i: int| 0 <= i < ws.len() implies s.admits(#[trigger] ws[i]) by {
        lemma_admitted(s, b, t.owner_of(b), i);
    }
    lemma_runs_commute(s, seq![raise], ws);
    lemma_writes_one(s, raise);
    lemma_writes_one(s.writes(ws), raise);
}

/// An edit, and then an op that settles which the edit keeps off.
proof fn lemma_edit_then_settle(t: TreeV, a: OpV, b: OpV)
    requires
        t.grounded(),
        t.takes_settling(a),
        t.takes(b),
        t.edit_keeps_off(b, a),
    ensures
        t.apply_kind(b.target, b.kind, b.stamp, b.id.client).apply_kind(
            a.target,
            a.kind,
            a.stamp,
            a.id.client,
        ).plain() == loosened(t.plain(), a).refold().writes(effect(b, t.owner_of(b))).write(
            WriteV::Raise { stamp: a.stamp, span: spec_span(a.kind) },
        ),
{
    let p = t.plain();
    let ws = effect(b, t.owner_of(b));
    let raise = WriteV::Raise { stamp: a.stamp, span: spec_span(a.kind) };
    let y = t.apply_kind(b.target, b.kind, b.stamp, b.id.client);
    lemma_effect(t, b);
    lemma_plain_keeps_off(t, a, b);
    lemma_loosened_writes(p, a, ws);
    assert(y.plain() == p.writes(ws));
    assert(y.takes_settling(a));
    lemma_placed_finite(p, ws);
    assert(y.placements == y.plain().placements);
    lemma_settling(y, a);
    lemma_plain_loosened(y, a);
    let z = loosened(y, a).refold();
    assert(z.write(raise).plain() == z.plain().write(raise));
    lemma_refold_edit(p, a, b);
}

proof fn lemma_plain_keeps_off(t: TreeV, a: OpV, b: OpV)
    requires
        t.grounded(),
        t.takes_settling(a),
        t.edit_keeps_off(b, a),
    ensures
        t.plain().grounded(),
        t.plain().takes_settling(a),
        t.plain().edit_keeps_off(b, a),
        t.plain().owner_of(b) == t.owner_of(b),
{
    let p = t.plain();
    let ws = effect(b, t.owner_of(b));
    assert(p.all_places() =~= t.all_places());
    assert forall|i: int| 0 <= i < ws.len() implies p.keeps_off(#[trigger] ws[i], a) by {
        assert(t.keeps_off(ws[i], a));
    }
}

/// Writes place finitely many nodes.
proof fn lemma_placed_finite(t: TreeV, ws: Seq<WriteV>)
    requires
        t.placements.dom().finite(),
    ensures
        t.writes(ws).placements.dom().finite(),
    decreases ws.len(),
{
    if ws.len() > 0 {
        lemma_placed_finite(t, ws.drop_last());
    }
}

/// A move or the deletion of a movable node's place, and an edit that keeps off it, leave
/// the same state whichever comes first. What displacement says is left out: it is worked
/// out from the slots.
pub proof fn law_settling_and_editing_commute(t: TreeV, a: OpV, b: OpV)
    requires
        t.grounded(),
        t.takes_settling(a),
        t.takes(b),
        t.edit_keeps_off(b, a),
    ensures
        t.apply_kind(a.target, a.kind, a.stamp, a.id.client).apply_kind(
            b.target,
            b.kind,
            b.stamp,
            b.id.client,
        ).plain() == t.apply_kind(b.target, b.kind, b.stamp, b.id.client).apply_kind(
            a.target,
            a.kind,
            a.stamp,
            a.id.client,
        ).plain(),
{
    lemma_settle_then_edit(t, a, b);
    lemma_edit_then_settle(t, a, b);
}

/// An edit of what is there keeps off a move, and off the deletion of a movable node's
/// place, where the items it speaks of are no placements. So, by the law above, they
/// commute.
pub proof fn law_edits_in_place_keep_off(t: TreeV, edit: OpV, op: OpV)
    requires
        edits_in_place(edit.kind),
        forall|id: Stamp| #[trigger]
            puts(edit).union(drops(edit)).contains(id) ==> {
                let p = Placement { list: edit.target, stamp: id };
                &&& !t.placement_index.dom().contains(p)
                &&& !t.all_places().contains(p)
                &&& op.kind is XmlMove ==> p != (Placement { list: op.target, stamp: op.stamp })
            },
    ensures
        t.edit_keeps_off(edit, op),
{
    let ws = effect(edit, t.owner_of(edit));
    assert forall|i: int| 0 <= i < ws.len() implies t.keeps_off(#[trigger] ws[i], op) by {
        lemma_in_place(edit, t.owner_of(edit), i);
        if let Some(p) = item_of(ws[i]) {
            assert(puts(edit).union(drops(edit)).contains(p.stamp));
        }
    }
}

/// Replicas converge past a move or the deletion of a movable node's place: one that folds
/// it and an edit that keeps off it in either order has seen the same ops, has the same
/// clocks and holds the same state.
pub proof fn law_replicas_converge_past_a_move(d: DocV, a: OpV, b: OpV)
    requires
        d.tree.grounded(),
        d.tree.takes_settling(a),
        d.tree.takes(b),
        d.tree.edit_keeps_off(b, a),
    ensures
        d.applied(a).applied(b).plain() == d.applied(b).applied(a).plain(),
{
    law_settling_and_editing_commute(d.tree, a, b);
    let x = d.applied(a).applied(b);
    let y = d.applied(b).applied(a);
    assert(x.seen =~= y.seen);
    assert(x.zone_clocks =~= y.zone_clocks);
}

/// Replicas converge over moves and deletions of where movable nodes stand: one that folds
/// two of them in either order has seen the same ops, has the same clocks and holds the
/// same state, but for the order in which a node's placements are kept.
pub proof fn law_replicas_converge_over_moves(d: DocV, a: OpV, b: OpV)
    requires
        d.tree.rooted(),
        d.tree.takes_settling(a),
        d.tree.takes_settling(b),
        a.stamp != b.stamp,
        !d.tree.movable(a.target),
        !d.tree.movable(b.target),
    ensures
        d.applied(a).applied(b).tree.alike(d.applied(b).applied(a).tree),
        d.applied(a).applied(b) == (DocV {
            tree: d.applied(a).applied(b).tree,
            ..d.applied(b).applied(a)
        }),
{
    law_concurrent_moves_converge(d.tree, a, b);
    let x = d.applied(a).applied(b);
    let y = d.applied(b).applied(a);
    assert(x.seen =~= y.seen);
    assert(x.zone_clocks =~= y.zone_clocks);
}

} // verus!
