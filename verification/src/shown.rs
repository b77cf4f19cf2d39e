//! Which placements show: in a state that authored ops lead to, a movable node shows at its
//! latest placement in the sequence it hangs off, unless one of its placements was deleted,
//! and nothing else is suppressed.

use crate::annot::Placement;
use crate::authored::{
    authored_alone, born_in, leaves, lemma_pool_born, lemma_pool_op, lemma_runs_prefix,
    lemma_tracer, ranked, runs_in_turn, trace_of, wrote, writes_of, TraceV,
};
use crate::clientid::ClientId;
use crate::commute::{
    born, child_container, effect, lemma_same_effect, lemma_writes_concat, lemma_writes_two, WriteV,
};
use crate::doc::DocV;
use crate::elementid::ElementId;
use crate::gist::{child_of, lemma_gist_doms, lemma_gist_refold, place_of};
use crate::grown::{
    grown, known, landed, lemma_edit_writes, lemma_grow, lemma_grown, lemma_landed, lemma_lands,
    lemma_leaves_born, lemma_place_fresh, seated, traces,
};
use crate::identity::spec_span;
use crate::list::{list_insert, ListV};
use crate::list_state::{as_written, empty_list};
use crate::move_laws::{lemma_only, lemma_placed, lemma_same_latest, loosened, moved};
use crate::op::{OpKindV, OpV};
use crate::settle_laws::lemma_refold_keeps;
use crate::stamp::Stamp;
use crate::table::{lemma_ordered_exists, ordered};
use crate::told::lemma_list_kept;
use crate::tree::{latest_in, or_insert, TreeV};
use crate::treemove::link_of;
use crate::xml::node_children_id;
use vstd::prelude::*;

verus! {

/// Whether a held place is where its node shows.
pub open spec fn shows(t: TreeV, p: Placement) -> bool {
    let n = t.placement_index[p];
    !t.any_tombstoned(t.placements[n]) && link_of(t.parents, n) == Some(p.list) && latest_in(
        t.placements[n],
        p.list,
    ) == Some(p.stamp)
}

/// Whether an item is suppressed just where it is a node's that shows elsewhere, or
/// nowhere.
pub open spec fn item_right(t: TreeV, p: Placement) -> bool {
    t.lists[p.list].items[p.stamp].moved_away == (t.placement_index.dom().contains(p) && !shows(
        t,
        p,
    ))
}

pub open spec fn has_item(t: TreeV, p: Placement) -> bool {
    t.lists.dom().contains(p.list) && t.lists[p.list].items.dom().contains(p.stamp)
}

/// Whether every item is.
#[verifier::opaque]
pub open spec fn shown_right(t: TreeV) -> bool {
    &&& forall|p: Placement| #[trigger] has_item(t, p) ==> item_right(t, p)
    &&& forall|l: ElementId, s: Stamp|
        t.texts.dom().contains(l) && #[trigger] t.texts[l].items.dom().contains(s)
            ==> !t.texts[l].items[s].moved_away
}

/// Whether every held place is in its sequence, and is one of its node's.
#[verifier::opaque]
pub(crate) open spec fn held_well(t: TreeV) -> bool {
    &&& forall|p: Placement| #[trigger]
        t.placement_index.dom().contains(p) ==> t.lists.dom().contains(p.list)
            && t.lists[p.list].places.dom().contains(p.stamp) && t.placements.dom().contains(
            t.placement_index[p],
        ) && t.placements[t.placement_index[p]].contains(p)
    &&& forall|n: ElementId, p: Placement|
        t.placements.dom().contains(n) && #[trigger] t.placements[n].contains(p)
            ==> t.placement_index.dom().contains(p) && t.placement_index[p] == n
}

pub(crate) proof fn lemma_seated_held(t: TreeV)
    requires
        seated(t),
    ensures
        held_well(t),
{
    reveal(seated);
    reveal(held_well);
}

// --- writes ---

/// Whether a write leaves every place of a node alone.
spec fn spares_places(t: TreeV, w: WriteV) -> bool {
    match w {
        WriteV::Hold { .. } => false,
        WriteV::Home { .. } => false,
        WriteV::Place { .. } => false,
        WriteV::ListDrop { list, id } => !t.placement_index.dom().contains(
            Placement { list, stamp: id },
        ),
        WriteV::Link { child, .. } => !t.placements.dom().contains(child),
        _ => true,
    }
}

proof fn lemma_spared_tombs(t: TreeV, w: WriteV, p: Placement)
    requires
        held_well(t),
        spares_places(t, w),
        t.placement_index.dom().contains(p),
    ensures
        t.write(w).is_tombstoned(p) == t.is_tombstoned(p),
        has_item(t.write(w), p) == has_item(t, p),
        has_item(t, p) ==> t.write(w).lists[p.list].items[p.stamp] == t.lists[p.list].items[p.stamp],
{
    reveal(held_well);
    let u = t.write(w);
    match w {
        WriteV::ListPut { list, id, value, anchor } => {
            if list == p.list {
                assert(u.lists[list] == list_insert(t.lists[list], id, value, anchor));
            }
        },
        _ => {},
    }
}

proof fn lemma_shown_write(t: TreeV, w: WriteV)
    requires
        shown_right(t),
        held_well(t),
        spares_places(t, w),
    ensures
        shown_right(t.write(w)),
        held_well(t.write(w)),
        t.write(w).placement_index == t.placement_index,
        t.write(w).placements == t.placements,
{
    let u = t.write(w);
    assert(u.placement_index == t.placement_index && u.placements == t.placements);
    assert(held_well(u)) by {
        reveal(held_well);
    }
    assert forall|p: Placement| t.placement_index.dom().contains(p) implies #[trigger] shows(u, p)
        == shows(t, p) by {
        reveal(held_well);
        let n = t.placement_index[p];
        let places = t.placements[n];
        assert forall|i: int| 0 <= i < places.len() implies u.is_tombstoned(#[trigger] places[i])
            == t.is_tombstoned(places[i]) by {
            assert(t.placements[n].contains(places[i]));
            lemma_spared_tombs(t, w, places[i]);
        }
        if t.any_tombstoned(places) {
            let i = choose|i: int| 0 <= i < places.len() && t.is_tombstoned(#[trigger] places[i]);
            assert(u.is_tombstoned(places[i]));
        }
        if u.any_tombstoned(places) {
            let i = choose|i: int| 0 <= i < places.len() && u.is_tombstoned(#[trigger] places[i]);
            assert(t.is_tombstoned(places[i]));
        }
    }
    assert(shown_right(u)) by {
        reveal(shown_right);
        assert forall|p: Placement| #[trigger] has_item(u, p) implies item_right(u, p) by {
            if t.placement_index.dom().contains(p) {
                lemma_spared_tombs(t, w, p);
                assert(shows(u, p) == shows(t, p));
            } else if has_item(t, p) {
                assert(item_right(t, p));
            }
        }
        assert forall|l: ElementId, s: Stamp|
            u.texts.dom().contains(l) && #[trigger] u.texts[l].items.dom().contains(s)
            implies !u.texts[l].items[s].moved_away by {
            if t.texts.dom().contains(l) && t.texts[l].items.dom().contains(s) {
                assert(!t.texts[l].items[s].moved_away);
            } else if let WriteV::NewText { id } = w {
                assert(u.texts == or_insert(t.texts, id, empty_list(id)));
            }
        }
    }
}

proof fn lemma_shown_writes(t: TreeV, ws: Seq<WriteV>)
    requires
        shown_right(t),
        held_well(t),
        forall|i: int| 0 <= i < ws.len() ==> spares_places(t, #[trigger] ws[i]),
    ensures
        shown_right(t.writes(ws)),
        held_well(t.writes(ws)),
        t.writes(ws).placement_index == t.placement_index,
        t.writes(ws).placements == t.placements,
    decreases ws.len(),
{
    if ws.len() > 0 {
        let h = ws.drop_last();
        assert forall|i: int| 0 <= i < h.len() implies spares_places(t, #[trigger] h[i]) by {
            assert(h[i] == ws[i]);
        }
        lemma_shown_writes(t, h);
        assert(ws[ws.len() - 1] == ws.last());
        lemma_shown_write(t.writes(h), ws.last());
    }
}

/// A child born at a new place shows there.
proof fn lemma_shown_born(t: TreeV, at: Placement, n: ElementId, put: WriteV)
    requires
        shown_right(t),
        held_well(t),
        put matches WriteV::ListPut { list, id, .. } && list == at.list && id == at.stamp,
        t.lists.dom().contains(at.list),
        !t.lists[at.list].places.dom().contains(at.stamp),
        !t.placements.dom().contains(n),
    ensures
        ({
            let u = t.write(WriteV::Home { child: n, parent: at.list }).write(
                WriteV::Hold { at, node: n },
            ).write(put).write(WriteV::Place { node: n, at });
            shown_right(u) && held_well(u)
        }),
{
    let u = t.write(WriteV::Home { child: n, parent: at.list }).write(
        WriteV::Hold { at, node: n },
    ).write(put).write(WriteV::Place { node: n, at });
    assert(!t.placement_index.dom().contains(at)) by {
        reveal(held_well);
    }
    assert(u.placement_index =~= t.placement_index.insert(at, n));
    assert(u.placements =~= t.placements.insert(n, seq![at])) by {
        assert(Seq::<Placement>::empty().push(at) =~= seq![at]);
    }
    assert(u.parents =~= t.parents.insert(n, at.list));
    assert(u.texts == t.texts);
    assert(u.lists.dom() =~= t.lists.dom());
    assert forall|p: Placement| p != at implies #[trigger] has_item(u, p) == has_item(t, p) && (
    has_item(t, p) ==> u.lists[p.list].items[p.stamp] == t.lists[p.list].items[p.stamp])
        && u.is_tombstoned(p) == t.is_tombstoned(p) by {}
    assert(has_item(u, at) && !u.lists[at.list].items[at.stamp].moved_away);
    assert(held_well(u)) by {
        reveal(held_well);
        assert(seq![at][0] == at);
        assert(seq![at].contains(at));
        assert forall|m: ElementId, p: Placement|
            u.placements.dom().contains(m) && #[trigger] u.placements[m].contains(p)
            implies u.placement_index.dom().contains(p) && u.placement_index[p] == m by {
            if m == n {
                assert(p == at);
            } else {
                assert(t.placements[m].contains(p));
            }
        }
    }
    assert(shows(u, at)) by {
        let places = u.placements[n];
        assert(places == seq![at]);
        assert(!u.any_tombstoned(places)) by {
            if u.any_tombstoned(places) {
                let i = choose|i: int| 0 <= i < places.len() && u.is_tombstoned(#[trigger] places[i]);
                assert(places[i] == at);
            }
        }
        crate::move_laws::lemma_latest(places, at.list);
        assert(places[0] == at);
        assert(places.contains(at));
        if let Some(s) = latest_in(places, at.list) {
            let q = Placement { list: at.list, stamp: s };
            assert(places.contains(q));
            assert(q == at);
        }
    }
    assert forall|p: Placement| t.placement_index.dom().contains(p) implies #[trigger] shows(u, p)
        == shows(t, p) by {
        reveal(held_well);
        let m = t.placement_index[p];
        let places = t.placements[m];
        assert(m != n);
        assert forall|i: int| 0 <= i < places.len() implies u.is_tombstoned(#[trigger] places[i])
            == t.is_tombstoned(places[i]) by {
            assert(t.placements[m].contains(places[i]));
            assert(places[i] != at);
            assert(has_item(u, places[i]) == has_item(t, places[i]));
        }
        if t.any_tombstoned(places) {
            let i = choose|i: int| 0 <= i < places.len() && t.is_tombstoned(#[trigger] places[i]);
            assert(u.is_tombstoned(places[i]));
        }
        if u.any_tombstoned(places) {
            let i = choose|i: int| 0 <= i < places.len() && u.is_tombstoned(#[trigger] places[i]);
            assert(t.is_tombstoned(places[i]));
        }
    }
    assert(shown_right(u)) by {
        reveal(shown_right);
        assert forall|p: Placement| #[trigger] has_item(u, p) implies item_right(u, p) by {
            if p != at {
                assert(has_item(t, p));
                assert(item_right(t, p));
                if t.placement_index.dom().contains(p) {
                    assert(shows(u, p) == shows(t, p));
                }
            }
        }
    }
}

// --- settling ---

/// Where settling makes a node show.
pub(crate) open spec fn settles_at(t: TreeV, tree: Map<ElementId, ElementId>, n: ElementId, p: Placement) -> bool {
    p.list == node_children_id(tree[n]) && !t.any_tombstoned(t.placements[n]) && latest_in(
        t.placements[n],
        p.list,
    ) == Some(p.stamp)
}

/// Whether two sequences differ at most in which items are suppressed.
pub(crate) open spec fn but_for_flags(a: ListV, b: ListV) -> bool {
    &&& a.id == b.id
    &&& a.places == b.places
    &&& a.displaced == b.displaced
    &&& a.items.dom() == b.items.dom()
    &&& forall|s: Stamp| #[trigger] a.items.dom().contains(s) ==> a.items[s].value
        == b.items[s].value
}

/// What settling some nodes leaves suppressed.
pub(crate) proof fn lemma_settle_flags(t: TreeV, tree: Map<ElementId, ElementId>, q: Seq<ElementId>)
    requires
        held_well(t),
        forall|i: int| 0 <= i < q.len() ==> t.placements.dom().contains(#[trigger] q[i]),
    ensures
        ({
            let u = t.settle_all(tree, q);
            &&& u.placements == t.placements
            &&& u.placement_index == t.placement_index
            &&& u.lists.dom() == t.lists.dom()
            &&& forall|l: ElementId| #[trigger]
                t.lists.dom().contains(l) ==> but_for_flags(t.lists[l], u.lists[l])
            &&& forall|p: Placement| #[trigger] has_item(u, p) == has_item(t, p)
            &&& forall|p: Placement| #[trigger] u.is_tombstoned(p) == t.is_tombstoned(p)
            &&& forall|p: Placement| #[trigger]
                has_item(t, p) ==> u.lists[p.list].items[p.stamp].moved_away == (
                if t.placement_index.dom().contains(p) && q.contains(t.placement_index[p])
                    && tree.dom().contains(t.placement_index[p]) {
                    !settles_at(t, tree, t.placement_index[p], p)
                } else {
                    t.lists[p.list].items[p.stamp].moved_away
                })
        }),
    decreases q.len(),
{
    let u = t.settle_all(tree, q);
    if q.len() > 0 {
        let h = q.drop_last();
        let n = q.last();
        assert forall|i: int| 0 <= i < h.len() implies t.placements.dom().contains(
            #[trigger] h[i],
        ) by {
            assert(h[i] == q[i]);
        }
        lemma_settle_flags(t, tree, h);
        assert(q[q.len() - 1] == n);
        let v = t.settle_all(tree, h);
        assert(u == v.settle(tree, n));
        assert forall|x: ElementId| #[trigger] q.contains(x) <==> h.contains(x) || x == n by {
            if h.contains(x) {
                assert(q[h.index_of(x)] == x);
            }
            if q.contains(x) && x != n {
                assert(h[q.index_of(x)] == x);
            }
        }
        reveal(TreeV::settle);
        reveal(held_well);
        if tree.dom().contains(n) {
            let list = node_children_id(tree[n]);
            let places = v.placements[n];
            let live = if v.any_tombstoned(places) {
                None
            } else {
                latest_in(places, list)
            };
            assert(v.any_tombstoned(places) == t.any_tombstoned(places)) by {
                if v.any_tombstoned(places) {
                    let i = choose|i: int|
                        0 <= i < places.len() && v.is_tombstoned(#[trigger] places[i]);
                    assert(t.is_tombstoned(places[i]));
                }
                if t.any_tombstoned(places) {
                    let i = choose|i: int|
                        0 <= i < places.len() && t.is_tombstoned(#[trigger] places[i]);
                    assert(v.is_tombstoned(places[i]));
                }
            }
            lemma_only(v, places, list, live);
            assert forall|l: ElementId| #[trigger] t.lists.dom().contains(
                l,
            ) implies but_for_flags(t.lists[l], u.lists[l]) by {
                assert(but_for_flags(t.lists[l], v.lists[l]));
                assert(v.lists.dom().contains(l));
            }
            assert forall|p: Placement| #[trigger] has_item(u, p) == has_item(t, p) by {
                assert(has_item(v, p) == has_item(t, p));
            }
            assert forall|p: Placement| #[trigger] u.is_tombstoned(p) == t.is_tombstoned(p) by {
                assert(v.is_tombstoned(p) == t.is_tombstoned(p));
            }
            assert forall|p: Placement| #[trigger] has_item(t, p) implies u.lists[p.list].items[
            p.stamp].moved_away == (if t.placement_index.dom().contains(p) && q.contains(
                t.placement_index[p],
            ) && tree.dom().contains(t.placement_index[p]) {
                !settles_at(t, tree, t.placement_index[p], p)
            } else {
                t.lists[p.list].items[p.stamp].moved_away
            }) by {
                assert(has_item(v, p));
                assert(p == Placement { list: p.list, stamp: p.stamp });
                if places.contains(p) {
                    assert(t.placements[n].contains(p));
                }
            }
        }
    } else {
        assert forall|x: ElementId| !#[trigger] q.contains(x) by {}
    }
}

/// Settling everything makes every node show where it should.
pub(crate) proof fn lemma_shown_settle(p: TreeV, a: OpV)
    requires
        shown_right(p),
        p.takes_settling(a),
        loosened(p, a).placements.dom().finite(),
        seated(loosened(p, a).refold()),
    ensures
        shown_right(loosened(p, a).refold()),
{
    let x = loosened(p, a);
    let u = x.refold();
    let tree = x.moves.tree();
    lemma_gist_refold(x);
    lemma_gist_doms(x);
    lemma_gist_doms(u);
    lemma_seated_held(u);
    assert(u.placement_index == x.placement_index) by {
        assert(u.gist().tree.placement_index == x.gist().tree.placement_index);
    }
    assert(held_well(x)) by {
        reveal(held_well);
        assert forall|l: ElementId| #[trigger] x.lists.dom().contains(l) implies x.lists[l].places
            == u.lists[l].places by {
            assert(as_written(x.lists[l]).places == as_written(u.lists[l]).places);
        }
        assert(x.lists.dom() == u.lists.dom());
    }
    reveal(TreeV::refold);
    let q = ordered::<ElementId>(x.placements.dom());
    lemma_ordered_exists::<ElementId>(x.placements.dom());
    assert forall|i: int| 0 <= i < q.len() implies x.placements.dom().contains(#[trigger] q[i]) by {
        assert(q.to_set().contains(q[i]));
    }
    lemma_settle_flags(x, tree, q);
    lemma_refold_keeps(x);
    assert(u.texts == x.texts && x.texts == p.texts);
    reveal(shown_right);
    assert forall|at: Placement| #[trigger] has_item(u, at) implies item_right(u, at) by {
        assert(has_item(x, at));
        if x.placement_index.dom().contains(at) {
            let n = x.placement_index[at];
            reveal(held_well);
            reveal(seated);
            assert(u.placements.dom().contains(n));
            assert(q.to_set().contains(n));
            assert(u.moves.tree().dom().contains(n));
            assert(link_of(u.parents, n) == Some(node_children_id(tree[n])));
            let places = x.placements[n];
            assert(u.any_tombstoned(places) == x.any_tombstoned(places)) by {
                if u.any_tombstoned(places) {
                    let i = choose|i: int|
                        0 <= i < places.len() && u.is_tombstoned(#[trigger] places[i]);
                    assert(x.is_tombstoned(places[i]));
                }
                if x.any_tombstoned(places) {
                    let i = choose|i: int|
                        0 <= i < places.len() && x.is_tombstoned(#[trigger] places[i]);
                    assert(u.is_tombstoned(places[i]));
                }
            }
            assert(shows(u, at) == settles_at(x, tree, n, at));
        } else {
            lemma_loose_item(p, a, at);
        }
    }
}

/// What is not a node's was not suppressed, and is not.
proof fn lemma_loose_item(p: TreeV, a: OpV, at: Placement)
    requires
        shown_right(p),
        p.takes_settling(a),
        has_item(loosened(p, a), at),
        !loosened(p, a).placement_index.dom().contains(at),
    ensures
        !loosened(p, a).lists[at.list].items[at.stamp].moved_away,
{
    reveal(shown_right);
    let x = loosened(p, a);
    match a.kind {
        OpKindV::ListDelete { id } => {
            assert(has_item(p, at));
            assert(item_right(p, at));
        },
        _ => {
            assert(x == moved(p, a));
            assert(at != place_of(a));
            assert(has_item(p, at));
            assert(item_right(p, at));
        },
    }
}

// --- ops ---

/// What an op hangs off something is no placed node.
proof fn lemma_links_spare(
    c: ClientId,
    pool: Set<OpV>,
    q: Seq<OpV>,
    a: OpV,
    p: TreeV,
    i: int,
)
    requires
        authored_alone(pool),
        runs_in_turn(c, pool, q),
        pool.contains(a),
        known(p, traces(q)),
        0 <= i < writes_of(a).len(),
        writes_of(a)[i] is Link,
    ensures
        !p.placements.dom().contains(writes_of(a)[i]->Link_child),
{
    let x = writes_of(a)[i]->Link_child;
    let o = writes_of(a)[i]->Link_parent;
    assert(trace_of(writes_of(a)[i]) == Some(TraceV::Link(x, o)));
    assert(wrote(a, TraceV::Link(x, o)));
    assert(leaves(a, TraceV::Link(x, o)));
    if p.placements.dom().contains(x) {
        assert(born_in(traces(q), x)) by {
            reveal(known);
        }
        let l = choose|l: ElementId| #[trigger] traces(q).contains(TraceV::Born(x, l));
        let b = lemma_tracer(c, pool, q, TraceV::Born(x, l));
        lemma_pool_born(pool, b, a, x, l);
    }
}

proof fn lemma_shown_bear(
    c: ClientId,
    pool: Set<OpV>,
    q: Seq<OpV>,
    a: OpV,
    p: TreeV,
    rank: spec_fn(ElementId) -> nat,
)
    requires
        authored_alone(pool),
        ranked(pool, rank),
        runs_in_turn(c, pool, q),
        pool.contains(a),
        !q.contains(a),
        grown(p, traces(q), rank),
        shown_right(p),
        a.kind is XmlInsertChild,
        p.lists.dom().contains(a.target),
    ensures
        shown_right(p.writes(effect(a, p.owner_of(a)))),
{
    let k = traces(q);
    let x = child_of(a);
    let at = place_of(a);
    let cont = child_container(a.kind->XmlInsertChild_tag);
    let b = born(x, cont);
    let owner = p.owner_of(a);
    let raise = WriteV::Raise { stamp: a.stamp, span: spec_span(a.kind) };
    let home = WriteV::Home { child: x, parent: a.target };
    let hold = WriteV::Hold { at, node: x };
    let put = WriteV::ListPut {
        list: a.target,
        id: a.stamp,
        value: cont.handle(x),
        anchor: a.kind->XmlInsertChild_anchor,
    };
    let place = WriteV::Place { node: x, at };
    let placed = WriteV::Placed { node: x };
    let tail = match owner {
        Some(o) => seq![WriteV::Base { child: x, parent: o }],
        None => Seq::empty(),
    };
    let first = seq![raise] + b;
    let last = seq![placed] + tail;
    let all = effect(a, owner);
    assert(all =~= first + (seq![home, hold] + (seq![put, place] + last)));
    lemma_writes_concat(p, first, seq![home, hold] + (seq![put, place] + last));
    let m = p.writes(first);
    lemma_writes_concat(m, seq![home, hold], seq![put, place] + last);
    lemma_writes_two(m, home, hold);
    let m2 = m.write(home).write(hold);
    lemma_writes_concat(m2, seq![put, place], last);
    lemma_writes_two(m2, put, place);
    let m3 = m2.write(put).write(place);
    lemma_seated_held(p);
    assert forall|i: int| 0 <= i < first.len() implies spares_places(p, #[trigger] first[i]) by {
        reveal(writes_of);
        assert(writes_of(a)[i] == first[i]);
        if first[i] is Link {
            lemma_links_spare(c, pool, q, a, p, i);
        }
        if i > 0 {
            assert(first[i] == b[i - 1]);
        }
    }
    lemma_shown_writes(p, first);
    assert forall|i: int| 0 <= i < first.len() implies !(#[trigger] first[i] is ListPut) && !(
    first[i] is ListDrop) by {
        if i > 0 {
            assert(first[i] == b[i - 1]);
        }
    }
    lemma_list_kept(p, first, a.target);
    lemma_place_fresh(c, pool, q, a);
    assert(!p.lists[a.target].places.dom().contains(a.stamp)) by {
        reveal(known);
        if p.lists[a.target].places.dom().contains(a.stamp) {
            assert(k.contains(TraceV::Item(a.target, a.stamp)));
        }
    }
    assert(!p.placements.dom().contains(x)) by {
        lemma_leaves_born(a);
        if p.placements.dom().contains(x) {
            assert(born_in(k, x)) by {
                reveal(known);
            }
            let l = choose|l: ElementId| #[trigger] k.contains(TraceV::Born(x, l));
            let z = lemma_tracer(c, pool, q, TraceV::Born(x, l));
            lemma_pool_born(pool, z, a, x, l);
        }
    }
    lemma_shown_born(m, at, x, put);
    lemma_shown_writes(m3, last);
}

proof fn lemma_shown_step(
    c: ClientId,
    pool: Set<OpV>,
    q: Seq<OpV>,
    a: OpV,
    rank: spec_fn(ElementId) -> nat,
)
    requires
        authored_alone(pool),
        ranked(pool, rank),
        runs_in_turn(c, pool, q),
        pool.contains(a),
        !q.contains(a),
        DocV::empty(c).ran(q).tree.ready(a),
        shown_right(DocV::empty(c).ran(q).tree.plain()),
    ensures
        shown_right(DocV::empty(c).ran(q).applied(a).tree.plain()),
{
    let t = DocV::empty(c).ran(q).tree;
    let p = t.plain();
    lemma_grown(c, pool, q, rank);
    lemma_grow(c, pool, q, a, rank);
    lemma_lands(c, pool, q, a, t, rank);
    lemma_pool_op(pool, a);
    assert(t.placements.dom().finite()) by {
        reveal(known);
        assert(p.placements == t.placements);
    }
    lemma_landed(t, a);
    let u = landed(p, a);
    assert(DocV::empty(c).ran(q).applied(a).tree.plain() == u);
    lemma_seated_held(p);
    if p.takes(a) {
        if a.kind is XmlInsertChild {
            lemma_shown_bear(c, pool, q, a, p, rank);
        } else {
            let ws = effect(a, p.owner_of(a));
            lemma_same_effect(a, p.owner_of(a), None);
            assert forall|i: int| 0 <= i < ws.len() implies spares_places(p, #[trigger] ws[i]) by {
                lemma_edit_writes(a, i);
                if ws[i] is Link {
                    assert(writes_of(a) == effect(a, None)) by {
                        reveal(writes_of);
                    }
                    lemma_links_spare(c, pool, q, a, p, i);
                }
            }
            lemma_shown_writes(p, ws);
        }
    } else {
        let x = loosened(p, a).refold();
        let w = WriteV::Raise { stamp: a.stamp, span: spec_span(a.kind) };
        assert(x == (TreeV { high_water: x.high_water, ..u }));
        assert(seated(u));
        lemma_seated_dry(u, x);
        assert(loosened(p, a).placements.dom().finite()) by {
            if a.kind is XmlMove {
                lemma_placed(p, a.kind->XmlMove_node, place_of(a));
            }
        }
        lemma_shown_settle(p, a);
        lemma_seated_held(x);
        lemma_shown_write(x, w);
    }
}

/// Figures do not show in where nodes stand.
proof fn lemma_seated_dry(t: TreeV, u: TreeV)
    requires
        seated(t),
        u == (TreeV { high_water: u.high_water, ..t }),
    ensures
        seated(u),
{
    crate::deliver::lemma_wet_seated(t, u.high_water);
    assert(crate::converge::wet(t, u.high_water) == u);
}

/// In a state that a run leads to, what shows is what should.
pub(crate) proof fn lemma_run_shown(
    c: ClientId,
    pool: Set<OpV>,
    q: Seq<OpV>,
    rank: spec_fn(ElementId) -> nat,
)
    requires
        authored_alone(pool),
        ranked(pool, rank),
        runs_in_turn(c, pool, q),
    ensures
        shown_right(DocV::empty(c).ran(q).tree.plain()),
    decreases q.len(),
{
    if q.len() == 0 {
        reveal(shown_right);
        let t = TreeV::empty().plain();
        assert(t.lists.dom() =~= Set::empty());
        assert(t.texts.dom() =~= Set::empty());
        assert forall|p: Placement| !#[trigger] has_item(t, p) by {}
    } else {
        let h = q.drop_last();
        lemma_runs_prefix(c, pool, q);
        lemma_run_shown(c, pool, h, rank);
        lemma_shown_step(c, pool, h, q.last(), rank);
    }
}

/// Figures do not show in what shows.
pub(crate) proof fn lemma_wet_shown(t: TreeV, u: TreeV)
    requires
        shown_right(t),
        u == (TreeV { high_water: u.high_water, ..t }),
    ensures
        shown_right(u),
{
    reveal(shown_right);
    assert forall|p: Placement| #[trigger] has_item(u, p) implies item_right(u, p) by {
        assert(has_item(t, p));
        assert(item_right(t, p));
        assert(forall|at: Placement| #[trigger] u.is_tombstoned(at) == t.is_tombstoned(at));
    }
}

/// States of one gist whose nodes are placed alike, and in which what shows is what should,
/// are one but for the order in which placements came.
pub(crate) proof fn lemma_shown_alike(t: TreeV, u: TreeV)
    requires
        t.gist() == u.gist(),
        t.parents == u.parents,
        t.moves == u.moves,
        t.high_water == u.high_water,
        shown_right(t.plain()),
        shown_right(u.plain()),
        seated(t.plain()),
        forall|n: ElementId| #[trigger]
            t.placements.dom().contains(n) <==> u.placements.dom().contains(n),
        forall|n: ElementId, at: Placement|
            t.placements.dom().contains(n) ==> (#[trigger] t.placements[n].contains(at)
                <==> u.placements[n].contains(at)),
    ensures
        t.plain().alike(u.plain()),
{
    let p = t.plain();
    let q = u.plain();
    let g = t.gist().tree;
    let h = u.gist().tree;
    lemma_gist_doms(t);
    lemma_gist_doms(u);
    assert(p.placements == t.placements && q.placements == u.placements);
    assert(p.placement_index == q.placement_index) by {
        assert(p.placement_index == g.placement_index && q.placement_index == h.placement_index);
    }
    assert(p.placements.dom() =~= q.placements.dom());
    assert(p.maps == g.maps && q.maps == h.maps);
    assert(p.counters == g.counters && q.counters == h.counters);
    assert(p.xml_elements == g.xml_elements && q.xml_elements == h.xml_elements);
    assert(p.xml_fragments == g.xml_fragments && q.xml_fragments == h.xml_fragments);
    assert(p.ranged == g.ranged && q.ranged == h.ranged);
    assert(p.acl == g.acl && q.acl == h.acl);
    assert(p.revealed == g.revealed && q.revealed == h.revealed);
    assert forall|l: ElementId| #[trigger] t.lists.dom().contains(l) implies t.lists[l].places
        == u.lists[l].places && t.lists[l].items.dom() == u.lists[l].items.dom() by {
        lemma_list_alike(t.lists[l], u.lists[l]);
    }
    assert(p.lists.dom() =~= t.lists.dom());
    assert(q.lists.dom() =~= u.lists.dom());
    assert forall|at: Placement| #[trigger] p.is_tombstoned(at) == q.is_tombstoned(at) by {
        if t.lists.dom().contains(at.list) {
            assert(p.lists[at.list].places == t.lists[at.list].places);
        }
    }
    lemma_seated_held(p);
    assert forall|at: Placement| p.placement_index.dom().contains(at) implies #[trigger] shows(
        p,
        at,
    ) == shows(q, at) by {
        reveal(held_well);
        let n = p.placement_index[at];
        let x = p.placements[n];
        let y = q.placements[n];
        assert forall|z: Placement| #[trigger] x.contains(z) <==> y.contains(z) by {
            assert(t.placements[n].contains(z) <==> u.placements[n].contains(z));
        }
        lemma_same_latest(x, y, at.list);
        if p.any_tombstoned(x) {
            let i = choose|i: int| 0 <= i < x.len() && p.is_tombstoned(#[trigger] x[i]);
            assert(x.contains(x[i]));
            assert(q.is_tombstoned(x[i]));
            assert(y[y.index_of(x[i])] == x[i]);
        }
        if q.any_tombstoned(y) {
            let i = choose|i: int| 0 <= i < y.len() && q.is_tombstoned(#[trigger] y[i]);
            assert(y.contains(y[i]));
            assert(x.contains(y[i]));
            assert(p.is_tombstoned(y[i]));
            assert(x[x.index_of(y[i])] == y[i]);
        }
    }
    assert forall|l: ElementId| #[trigger] p.lists.dom().contains(l) implies p.lists[l]
        == q.lists[l] by {
        assert(t.lists.dom().contains(l));
        lemma_list_alike(t.lists[l], u.lists[l]);
        assert forall|s: Stamp| #[trigger] p.lists[l].items.dom().contains(s)
            implies p.lists[l].items[s] == q.lists[l].items[s] by {
            let at = Placement { list: l, stamp: s };
            reveal(shown_right);
            assert(has_item(p, at) && has_item(q, at));
            assert(item_right(p, at) && item_right(q, at));
            if p.placement_index.dom().contains(at) {
                assert(shows(p, at) == shows(q, at));
            }
        }
        assert(p.lists[l].items =~= q.lists[l].items);
    }
    assert(p.lists =~= q.lists);
    assert forall|l: ElementId| #[trigger] p.texts.dom().contains(l) implies p.texts[l]
        == q.texts[l] by {
        assert(t.texts.dom().contains(l) && u.texts.dom().contains(l));
        lemma_list_alike(t.texts[l], u.texts[l]);
        assert(q.texts.dom().contains(l));
        assert forall|s: Stamp| #[trigger] p.texts[l].items.dom().contains(s)
            implies p.texts[l].items[s] == q.texts[l].items[s] by {
            reveal(shown_right);
            assert(q.texts[l].items.dom().contains(s));
        }
        assert(p.texts[l].items =~= q.texts[l].items);
    }
    assert(p.texts.dom() =~= q.texts.dom());
    assert(p.texts =~= q.texts);
    assert forall|n: ElementId| #[trigger] p.placements.dom().contains(n)
        implies p.placements[n].to_set() == q.placements[n].to_set() by {
        assert forall|z: Placement| p.placements[n].to_set().contains(z)
            <==> q.placements[n].to_set().contains(z) by {
            assert(t.placements[n].contains(z) <==> u.placements[n].contains(z));
        }
        assert(p.placements[n].to_set() =~= q.placements[n].to_set());
    }
}

proof fn lemma_list_alike(a: ListV, b: ListV)
    requires
        as_written(a) == as_written(b),
    ensures
        a.id == b.id,
        a.places == b.places,
        a.items.dom() == b.items.dom(),
        forall|s: Stamp| #[trigger] a.items.dom().contains(s) ==> a.items[s].value
            == b.items[s].value,
{
    let x = as_written(a);
    let y = as_written(b);
    assert(x.items.dom() =~= a.items.dom() && y.items.dom() =~= b.items.dom());
    assert forall|s: Stamp| #[trigger] a.items.dom().contains(s) implies a.items[s].value
        == b.items[s].value by {
        assert(x.items[s].value == a.items[s].value && y.items[s].value == b.items[s].value);
    }
}

} // verus!
