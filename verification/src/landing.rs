//! A move shows its node where it was asked to.

use crate::anchor::Anchor;
use crate::annot::Placement;
use crate::clientid::ClientId;
use crate::converge::{raised, wet};
use crate::authored::{lemma_pool_rank, runs_in_turn};
use crate::deliver::{authored, bares, lemma_stands_seated, lemma_wet_seated, stands, stands_at};
use crate::doc::{DocV, Document};
use crate::element::ElementV;
use crate::elementid::ElementId;
use crate::gist::{lemma_gist_doms, lemma_gist_refold};
use crate::grown::{
    has_children, lemma_grown, lemma_grown_acyclic, lemma_replayed, seated, traces,
};
use crate::identity::{root_element, spec_span};
use crate::inverse::first_index;
use crate::list::{list_insert, ItemV, ListV};
use crate::list_laws::{
    is_new, law_a_new_id_moves_no_other, law_insert_lands_at_its_index, law_order_has_no_repeats,
    lemma_gap_counts, lemma_live_no_dup, lemma_live_omitting, lemma_live_same, lemma_order_depth,
};
use crate::move_laws::{lemma_latest, lemma_placed, lemma_settling_applied, moved};
use crate::list_state::as_written;
use crate::lived::{lemma_lived, TurnV};
use crate::mint::law_mints_clear_the_record;
use crate::op::{OpId, OpKindV, OpV};
use crate::order::{ascends, in_order, lemma_ascends_unique, lemma_in_order, order};
use crate::registry::Held;
use crate::sequence::{
    counts, gap_at, lemma_live_in_items, lemma_places_finite, list_live, list_place, list_values, live_ids,
};
use crate::settle_laws::lemma_refold_keeps;
use crate::shown::{
    but_for_flags, has_item, held_well, item_right, lemma_seated_held, lemma_settle_flags,
    lemma_shown_settle, lemma_wet_shown, settles_at, shown_right, shows,
};
use crate::stamp::{law_stamp_order_is_total, stamp_lt, Stamp};
use crate::table::{lemma_ordered_exists, ordered};
use crate::told::{held_right, lemma_child_gist, lemma_run_tells, tells};
use crate::tree::{latest_in, TreeV};
use crate::treemove::{
    acyclic, climbs, is_above, law_moves_never_close_a_loop, lemma_above_climbs, lemma_climb_join,
    link_of, replay_moves, MoveEdge, MovesV,
};
use crate::undo::{HistoryV, StepV};
use crate::undone::{lemma_one_undone, names_stand, records};
use crate::walk::zone_of_op;
use crate::xml::node_children_id;
use vstd::prelude::*;

verus! {

/// Whether an item's value is a node.
pub open spec fn names_node(e: ElementV, node: ElementId) -> bool {
    e == ElementV::XmlElement(node) || e == ElementV::Text(node)
}

/// What a sequence reads with a node left out.
pub open spec fn apart_from(v: Seq<ElementV>, node: ElementId) -> Seq<ElementV>
    decreases v.len(),
{
    if v.len() == 0 {
        v
    } else if names_node(v.last(), node) {
        apart_from(v.drop_last(), node)
    } else {
        apart_from(v.drop_last(), node).push(v.last())
    }
}

/// Whether every place a node holds is told by its item, and no other item names a node.
#[verifier::opaque]
pub open spec fn items_told(t: TreeV) -> bool {
    forall|p: Placement, n: ElementId|
        #![trigger has_item(t, p), names_node(t.lists[p.list].items[p.stamp].value, n)]
        has_item(t, p) ==> (names_node(t.lists[p.list].items[p.stamp].value, n) <==> (
        t.placement_index.dom().contains(p) && t.placement_index[p] == n))
}

/// Whether every node is where the moves put it and shows there, as in every replica that
/// arrivals, edits and transactions lead to.
pub open spec fn placed_well(t: TreeV) -> bool {
    &&& seated(t)
    &&& shown_right(t)
    &&& items_told(t)
    &&& t.placements.dom().finite()
    &&& t.moves.log.dom().finite()
    &&& t.moves.base.dom().finite()
    &&& acyclic(t.moves.base)
}

/// Whether every sequence has finitely many places, and a place for every item, as in every
/// well-formed replica.
pub open spec fn sequences_sound(t: TreeV) -> bool {
    forall|l: ElementId| #[trigger]
        t.lists.dom().contains(l) ==> t.lists[l].places.dom().finite()
            && t.lists[l].items.dom().subset_of(t.lists[l].places.dom())
}

/// Whether every node is in its place in sound sequences.
pub open spec fn in_place(t: TreeV) -> bool {
    placed_well(t) && sequences_sound(t)
}

/// Whether a stamp is later than every move, every place and everything a place attaches to.
pub open spec fn is_latest(t: TreeV, s: Stamp) -> bool {
    &&& forall|r: Stamp| #[trigger] t.moves.log.dom().contains(r) ==> stamp_lt(r, s)
    &&& forall|p: Placement| #[trigger] t.placement_index.dom().contains(p) ==> stamp_lt(p.stamp, s)
    &&& forall|l: ElementId| #[trigger]
        t.lists.dom().contains(l) ==> is_new(t.lists[l].places, s)
}

/// Whether a node may go under another: both are here, it was not deleted, and it is not
/// above the other.
pub open spec fn may_move(t: TreeV, node: ElementId, parent: ElementId) -> bool {
    &&& t.placements.dom().contains(node)
    &&& has_children(t, parent)
    &&& !t.any_tombstoned(t.placements[node])
    &&& forall|k: nat| !#[trigger] climbs(t.moves.tree(), parent, node, k)
}

// --- the moves ---

proof fn lemma_same_replay(
    base: Map<ElementId, ElementId>,
    a: Map<Stamp, MoveEdge>,
    b: Map<Stamp, MoveEdge>,
    q: Seq<Stamp>,
)
    requires
        forall|i: int| 0 <= i < q.len() ==> a[#[trigger] q[i]] == b[q[i]],
    ensures
        replay_moves(base, a, q) == replay_moves(base, b, q),
    decreases q.len(),
{
    if q.len() > 0 {
        let h = q.drop_last();
        assert forall|i: int| 0 <= i < h.len() implies a[#[trigger] h[i]] == b[h[i]] by {
            assert(h[i] == q[i]);
        }
        assert(q[q.len() - 1] == q.last());
        lemma_same_replay(base, a, b, h);
    }
}

/// The latest move takes its node, unless the node is above where it goes.
proof fn lemma_latest_move(m: MovesV, s: Stamp, node: ElementId, parent: ElementId)
    requires
        m.log.dom().finite(),
        forall|r: Stamp| #[trigger] m.log.dom().contains(r) ==> stamp_lt(r, s),
        forall|k: nat| !#[trigger] climbs(m.tree(), parent, node, k),
    ensures
        m.apply(s, node, parent).tree() == m.tree().insert(node, parent),
        !m.log.dom().contains(s),
{
    law_stamp_order_is_total(s, s, s);
    assert(!m.log.dom().contains(s));
    let n = m.apply(s, node, parent);
    let q = in_order(m.log.dom());
    lemma_in_order(m.log.dom());
    lemma_in_order(n.log.dom());
    let r = q.push(s);
    assert(n.log.dom() =~= m.log.dom().insert(s));
    assert(ascends(r)) by {
        assert forall|i: int, j: int| 0 <= i < j < r.len() implies stamp_lt(
            #[trigger] r[i],
            #[trigger] r[j],
        ) by {
            assert(r[i] == q[i]);
            assert(q.to_set().contains(q[i]));
            if j < q.len() {
                assert(r[j] == q[j]);
            }
        }
    }
    assert(r.to_set() =~= n.log.dom()) by {
        assert forall|y: Stamp| r.to_set().contains(y) <==> n.log.dom().contains(y) by {
            assert(q.to_set().contains(y) <==> m.log.dom().contains(y));
            if q.contains(y) {
                assert(r[q.index_of(y)] == y);
            }
            assert(r[q.len() as int] == s);
            if r.contains(y) && y != s {
                assert(q[r.index_of(y)] == y);
            }
        }
    }
    lemma_ascends_unique(r, in_order(n.log.dom()));
    assert forall|i: int| 0 <= i < q.len() implies m.log[#[trigger] q[i]] == n.log[q[i]] by {
        assert(q.to_set().contains(q[i]));
    }
    lemma_same_replay(m.base, m.log, n.log, q);
    assert(r.drop_last() =~= q);
    let t = m.tree();
    if is_above(t, parent, node, t.dom().len()) {
        let k = lemma_above_climbs(t, parent, node, t.dom().len());
        assert(climbs(t, parent, node, k));
    }
}

// --- the sequences ---

/// A sequence with every place of a node suppressed.
pub open spec fn sans(t: TreeV, l: ElementId, node: ElementId) -> ListV {
    ListV {
        items: Map::new(
            |s: Stamp| t.lists[l].items.dom().contains(s),
            |s: Stamp|
                {
                    let p = Placement { list: l, stamp: s };
                    if t.placement_index.dom().contains(p) && t.placement_index[p] == node {
                        ItemV { moved_away: true, ..t.lists[l].items[s] }
                    } else {
                        t.lists[l].items[s]
                    }
                },
        ),
        ..t.lists[l]
    }
}

/// A sequence after a node moved: the node's places in it are suppressed, but for the new
/// one.
pub open spec fn after_move(
    t: TreeV,
    l: ElementId,
    node: ElementId,
    dest: ElementId,
    s: Stamp,
    anchor: Anchor,
) -> ListV {
    if l == dest {
        list_insert(sans(t, l, node), s, t.node_handle(node)->Some_0, anchor)
    } else {
        sans(t, l, node)
    }
}

/// The op that moves a node.
pub open spec fn is_move(
    op: OpV,
    node: ElementId,
    parent: ElementId,
    anchor: Anchor,
    s: Stamp,
) -> bool {
    op.kind == (OpKindV::XmlMove { node, anchor }) && op.target == node_children_id(parent)
        && op.stamp == s
}

/// The state a move leaves to be settled holds its places well.
proof fn lemma_moved_held(
    t: TreeV,
    op: OpV,
    node: ElementId,
    parent: ElementId,
    anchor: Anchor,
    s: Stamp,
)
    requires
        in_place(t),
        may_move(t, node, parent),
        is_latest(t, s),
        is_move(op, node, parent, anchor, s),
    ensures
        t.takes_settling(op),
        held_well(moved(t, op)),
        moved(t, op).placements.dom() == t.placements.dom(),
        moved(t, op).placements[node] == t.placements[node].push(
            Placement { list: op.target, stamp: s },
        ),
        moved(t, op).moves.tree() == t.moves.tree().insert(node, parent),
        moved(t, op).moves.base == t.moves.base,
        moved(t, op).moves.log == t.moves.log.insert(s, MoveEdge { child: node, parent }),
        forall|m: ElementId| #[trigger]
            t.placements.dom().contains(m) && m != node ==> moved(t, op).placements[m]
                == t.placements[m],
{
    let dest = op.target;
    let p = Placement { list: dest, stamp: s };
    let x = moved(t, op);
    lemma_seated_held(t);
    law_stamp_order_is_total(s, s, s);
    assert(!t.placement_index.dom().contains(p));
    assert(t.node_handle(node) is Some) by {
        reveal(seated);
    }
    lemma_latest_move(t.moves, s, node, parent);
    lemma_placed(t, node, p);
    assert(x.placements.dom() =~= t.placements.dom());
    reveal(held_well);
    assert forall|q: Placement| #[trigger] x.placement_index.dom().contains(q)
        implies x.lists.dom().contains(q.list) && x.lists[q.list].places.dom().contains(q.stamp)
        && x.placements.dom().contains(x.placement_index[q])
        && x.placements[x.placement_index[q]].contains(q) by {
        if q == p {
            let w = x.placements[node];
            assert(w[w.len() - 1] == p);
        } else {
            assert(t.placement_index.dom().contains(q));
            let n = t.placement_index[q];
            assert(t.placements[n].contains(q));
            assert(x.placements[n].contains(q));
        }
    }
}

/// What a tombstone is does not change.
proof fn lemma_moved_tombs(
    t: TreeV,
    op: OpV,
    node: ElementId,
    parent: ElementId,
    anchor: Anchor,
    s: Stamp,
    q: Placement,
)
    requires
        may_move(t, node, parent),
        is_latest(t, s),
        is_move(op, node, parent, anchor, s),
    ensures
        moved(t, op).is_tombstoned(q) == t.is_tombstoned(q),
        q != (Placement { list: op.target, stamp: s }) ==> has_item(moved(t, op), q) == has_item(
            t,
            q,
        ) && (has_item(t, q) ==> moved(t, op).lists[q.list].items[q.stamp]
            == t.lists[q.list].items[q.stamp]),
        has_item(moved(t, op), Placement { list: op.target, stamp: s }),
{
    assert(t.lists.dom().contains(op.target));
    assert(is_new(t.lists[op.target].places, s));
}

proof fn lemma_same_tombs(t: TreeV, u: TreeV, places: Seq<Placement>)
    requires
        forall|i: int|
            0 <= i < places.len() ==> u.is_tombstoned(#[trigger] places[i]) == t.is_tombstoned(
                places[i],
            ),
    ensures
        u.any_tombstoned(places) == t.any_tombstoned(places),
{
    if t.any_tombstoned(places) {
        let i = choose|i: int| 0 <= i < places.len() && t.is_tombstoned(#[trigger] places[i]);
        assert(u.is_tombstoned(places[i]));
    }
    if u.any_tombstoned(places) {
        let i = choose|i: int| 0 <= i < places.len() && u.is_tombstoned(#[trigger] places[i]);
        assert(t.is_tombstoned(places[i]));
    }
}

/// What a move leaves suppressed.
proof fn lemma_moved_flag(
    t: TreeV,
    op: OpV,
    node: ElementId,
    parent: ElementId,
    anchor: Anchor,
    s: Stamp,
    q: Placement,
)
    requires
        in_place(t),
        may_move(t, node, parent),
        is_latest(t, s),
        is_move(op, node, parent, anchor, s),
        has_item(moved(t, op), q),
    ensures
        ({
            let x = moved(t, op);
            let u = x.refold();
            &&& u.lists.dom() == x.lists.dom()
            &&& has_item(u, q)
            &&& u.lists[q.list].items[q.stamp].moved_away == (if q == (Placement {
                list: op.target,
                stamp: s,
            }) {
                false
            } else if t.placement_index.dom().contains(q) && t.placement_index[q] == node {
                true
            } else {
                t.lists[q.list].items[q.stamp].moved_away
            })
        }),
{
    let dest = op.target;
    let p = Placement { list: dest, stamp: s };
    let x = moved(t, op);
    let u = x.refold();
    let tree = x.moves.tree();
    lemma_moved_held(t, op, node, parent, anchor, s);
    reveal(TreeV::refold);
    let nodes = ordered::<ElementId>(x.placements.dom());
    lemma_ordered_exists::<ElementId>(x.placements.dom());
    assert forall|i: int| 0 <= i < nodes.len() implies x.placements.dom().contains(
        #[trigger] nodes[i],
    ) by {
        assert(nodes.to_set().contains(nodes[i]));
    }
    lemma_settle_flags(x, tree, nodes);
    lemma_moved_tombs(t, op, node, parent, anchor, s, q);
    assert(has_item(u, q) == has_item(x, q));
    if x.placement_index.dom().contains(q) {
        let n = x.placement_index[q];
        reveal(held_well);
        assert(x.placements[n].contains(q));
        assert(nodes.to_set().contains(n));
        assert(nodes.contains(n));
        let places = x.placements[n];
        assert forall|i: int| 0 <= i < places.len() implies x.is_tombstoned(#[trigger] places[i])
            == t.is_tombstoned(places[i]) by {
            lemma_moved_tombs(t, op, node, parent, anchor, s, places[i]);
        }
        lemma_same_tombs(t, x, places);
        if n == node {
            assert(tree.dom().contains(n));
            assert(!t.any_tombstoned(places)) by {
                if t.any_tombstoned(places) {
                    let i = choose|i: int|
                        0 <= i < places.len() && t.is_tombstoned(#[trigger] places[i]);
                    if i < t.placements[node].len() {
                        assert(places[i] == t.placements[node][i]);
                        assert(t.is_tombstoned(t.placements[node][i]));
                    } else {
                        assert(places[i] == p);
                        assert(is_new(t.lists[dest].places, s));
                    }
                }
            }
            lemma_latest(places, dest);
            assert(places[places.len() - 1] == p);
            assert(places.contains(p));
            let top = latest_in(places, dest)->Some_0;
            assert(top == s) by {
                let z = Placement { list: dest, stamp: top };
                assert(places.contains(z));
                if z != p {
                    assert(x.placement_index.dom().contains(z));
                    assert(t.placement_index.dom().contains(z));
                    assert(stamp_lt(z.stamp, s));
                }
            }
        } else {
            assert(t.placement_index.dom().contains(q));
            assert(t.placement_index[q] == n);
            lemma_seated_held(t);
            reveal(seated);
            assert(t.placements.dom().contains(n));
            assert(tree[n] == t.moves.tree()[n]);
            assert(tree.dom().contains(n));
            reveal(shown_right);
            assert(has_item(t, q));
            assert(item_right(t, q));
            assert(shows(t, q) == settles_at(x, tree, n, q));
        }
    }
}

/// What a move leaves in each sequence.
proof fn lemma_moved_lists(
    t: TreeV,
    op: OpV,
    node: ElementId,
    parent: ElementId,
    anchor: Anchor,
    s: Stamp,
    l: ElementId,
)
    requires
        in_place(t),
        may_move(t, node, parent),
        is_latest(t, s),
        is_move(op, node, parent, anchor, s),
        t.lists.dom().contains(l),
    ensures
        moved(t, op).refold().lists.dom() == t.lists.dom(),
        moved(t, op).refold().lists[l] == after_move(t, l, node, op.target, s, anchor),
{
    let dest = op.target;
    let x = moved(t, op);
    let u = x.refold();
    lemma_moved_held(t, op, node, parent, anchor, s);
    assert(x.lists.dom() =~= t.lists.dom());
    assert(u.lists.dom() == x.lists.dom() && but_for_flags(x.lists[l], u.lists[l])) by {
        reveal(TreeV::refold);
        let nodes = ordered::<ElementId>(x.placements.dom());
        lemma_ordered_exists::<ElementId>(x.placements.dom());
        assert forall|i: int| 0 <= i < nodes.len() implies x.placements.dom().contains(
            #[trigger] nodes[i],
        ) by {
            assert(nodes.to_set().contains(nodes[i]));
        }
        lemma_settle_flags(x, x.moves.tree(), nodes);
    }
    let w = after_move(t, l, node, dest, s, anchor);
    assert(is_new(t.lists[l].places, s));
    assert(!sans(t, l, node).places.dom().contains(s));
    assert(w.items.dom() =~= x.lists[l].items.dom());
    assert forall|r: Stamp| #[trigger] w.items.dom().contains(r) implies w.items[r]
        == u.lists[l].items[r] by {
        let q = Placement { list: l, stamp: r };
        assert(has_item(x, q));
        lemma_moved_flag(t, op, node, parent, anchor, s, q);
        lemma_moved_tombs(t, op, node, parent, anchor, s, q);
        assert(x.lists[l].items.dom().contains(r));
    }
    assert(w.items =~= u.lists[l].items);
    assert(w.places =~= u.lists[l].places);
}

/// What a move hangs off what.
proof fn lemma_moved_links(
    t: TreeV,
    op: OpV,
    node: ElementId,
    parent: ElementId,
    anchor: Anchor,
    s: Stamp,
)
    requires
        in_place(t),
        may_move(t, node, parent),
        is_latest(t, s),
        is_move(op, node, parent, anchor, s),
    ensures
        moved(t, op).refold().parents == t.parents.insert(node, op.target),
{
    let x = moved(t, op);
    let u = x.refold();
    lemma_moved_held(t, op, node, parent, anchor, s);
    lemma_gist_refold(x);
    let w = t.parents.insert(node, op.target);
    assert forall|y: ElementId| #[trigger] link_of(u.parents, y) == link_of(w, y) by {
        reveal(seated);
        if x.placements.dom().contains(y) && y != node {
            assert(t.placements.dom().contains(y));
            assert(x.moves.tree()[y] == t.moves.tree()[y]);
        }
    }
    assert forall|y: ElementId| u.parents.dom().contains(y) == w.dom().contains(y) && (
    u.parents.dom().contains(y) ==> #[trigger] u.parents[y] == w[y]) by {
        assert(link_of(u.parents, y) == link_of(w, y));
    }
    assert forall|y: ElementId| #[trigger] u.parents.dom().contains(y) == w.dom().contains(y) by {
        let z = u.parents[y];
    }
    assert(u.parents =~= w);
}

/// Every node is in place after a move.
proof fn lemma_moved_in_place(
    t: TreeV,
    op: OpV,
    node: ElementId,
    parent: ElementId,
    anchor: Anchor,
    s: Stamp,
    hw: Map<ClientId, u64>,
)
    requires
        in_place(t),
        may_move(t, node, parent),
        is_latest(t, s),
        is_move(op, node, parent, anchor, s),
    ensures
        in_place(wet(moved(t, op).refold(), hw)),
{
    let dest = op.target;
    let p = Placement { list: dest, stamp: s };
    let x = moved(t, op);
    let u = x.refold();
    lemma_moved_held(t, op, node, parent, anchor, s);
    lemma_moved_links(t, op, node, parent, anchor, s);
    lemma_refold_keeps(x);
    assert forall|l: ElementId| #[trigger] t.lists.dom().contains(l) implies u.lists[l]
        == after_move(t, l, node, dest, s, anchor) && u.lists[l].places.dom().finite()
        && u.lists[l].items.dom().subset_of(u.lists[l].places.dom()) by {
        lemma_moved_lists(t, op, node, parent, anchor, s, l);
        assert(sans(t, l, node).items.dom() =~= t.lists[l].items.dom());
    }
    lemma_moved_lists(t, op, node, parent, anchor, s, dest);
    lemma_seated_held(t);
    assert forall|y: ElementId| #[trigger] has_children(t, y) implies has_children(u, y) by {
        assert(node_children_id(y) != node);
    }
    assert(seated(u)) by {
        reveal(seated);
        reveal(held_well);
        assert(u.placements == x.placements && u.placement_index == x.placement_index);
        assert(u.moves == x.moves);
        assert forall|n: ElementId| #[trigger] u.placements.dom().contains(n)
            implies u.placements[n].len() > 0 && u.placements[n].no_duplicates() by {
            if n == node {
                let w = t.placements[node];
                assert(!w.contains(p)) by {
                    if w.contains(p) {
                        assert(t.placement_index.dom().contains(p));
                        assert(stamp_lt(s, s));
                        law_stamp_order_is_total(s, s, s);
                    }
                }
                assert forall|i: int, j: int| 0 <= i < j < w.push(p).len() implies w.push(p)[i]
                    != w.push(p)[j] by {
                    assert(w.contains(w[i]));
                }
            }
        }
        assert forall|n: ElementId| #[trigger] u.placements.dom().contains(n)
            implies u.node_handle(n) is Some && u.moves.base.dom().contains(n) && has_children(
            u,
            u.moves.base[n],
        ) by {
            assert(t.placements.dom().contains(n));
            assert(u.node_handle(n) == t.node_handle(n));
            assert(has_children(t, t.moves.base[n]));
        }
        assert forall|n: ElementId| #[trigger] u.placements.dom().contains(n)
            implies u.parents.dom().contains(n) && u.moves.tree().dom().contains(n) && u.parents[n]
            == node_children_id(u.moves.tree()[n]) by {
            assert(t.placements.dom().contains(n));
        }
        assert forall|r: Stamp| #[trigger] u.moves.log.dom().contains(r)
            implies u.placements.dom().contains(u.moves.log[r].child) && has_children(
            u,
            u.moves.log[r].parent,
        ) by {
            if r != s {
                assert(t.moves.log.dom().contains(r));
                assert(has_children(t, t.moves.log[r].parent));
            }
        }
        assert forall|n: ElementId, q: Placement|
            u.placements.dom().contains(n) implies (#[trigger] u.placements[n].contains(q) <==> (
        u.placement_index.dom().contains(q) && u.placement_index[q] == n)) by {}
    }
    lemma_shown_settle(t, op);
    assert(items_told(u)) by {
        reveal(items_told);
        assert forall|q: Placement, n: ElementId|
            #![trigger has_item(u, q), names_node(u.lists[q.list].items[q.stamp].value, n)]
            has_item(u, q) implies (names_node(u.lists[q.list].items[q.stamp].value, n) <==> (
        u.placement_index.dom().contains(q) && u.placement_index[q] == n)) by {
            if q == p {
                assert(u.lists[dest].items[s].value == t.node_handle(node)->Some_0);
                reveal(seated);
                assert(t.node_handle(node) is Some);
            } else {
                assert(has_item(t, q));
                assert(u.lists[q.list].items[q.stamp].value == t.lists[q.list].items[q.stamp].value);
                assert(names_node(t.lists[q.list].items[q.stamp].value, n) <==> (
                t.placement_index.dom().contains(q) && t.placement_index[q] == n));
            }
        }
    }
    let v = wet(u, hw);
    lemma_wet_seated(u, hw);
    lemma_wet_shown(u, v);
    assert(items_told(v)) by {
        reveal(items_told);
        assert forall|q: Placement, n: ElementId|
            #![trigger has_item(v, q), names_node(v.lists[q.list].items[q.stamp].value, n)]
            has_item(v, q) implies (names_node(v.lists[q.list].items[q.stamp].value, n) <==> (
        v.placement_index.dom().contains(q) && v.placement_index[q] == n)) by {
            assert(has_item(u, q));
            assert(names_node(u.lists[q.list].items[q.stamp].value, n) <==> (
            u.placement_index.dom().contains(q) && u.placement_index[q] == n));
        }
    }
}

// --- what is read ---

/// The values at some ids.
spec fn values_at(l: ListV, ids: Seq<Stamp>) -> Seq<ElementV> {
    ids.map_values(|id: Stamp| l.items[id].value)
}

/// Suppressing just what names a node leaves the node out of what is read.
proof fn lemma_read_apart(l: ListV, w: ListV, node: ElementId, ids: Seq<Stamp>)
    requires
        forall|i: int|
            0 <= i < ids.len() ==> w.is_live(#[trigger] ids[i]) == (l.is_live(ids[i])
                && !names_node(l.items[ids[i]].value, node)),
        forall|s: Stamp| #[trigger] l.items.dom().contains(s) ==> w.items[s].value
            == l.items[s].value,
    ensures
        values_at(w, live_ids(w, ids)) == apart_from(values_at(l, live_ids(l, ids)), node),
    decreases ids.len(),
{
    if ids.len() == 0 {
        assert(values_at(w, live_ids(w, ids)) =~= Seq::empty());
        assert(values_at(l, live_ids(l, ids)) =~= Seq::empty());
    } else {
        let h = ids.drop_last();
        let x = ids.last();
        assert(ids[ids.len() - 1] == x);
        assert forall|i: int| 0 <= i < h.len() implies w.is_live(#[trigger] h[i]) == (l.is_live(h[i])
            && !names_node(l.items[h[i]].value, node)) by {
            assert(h[i] == ids[i]);
        }
        lemma_read_apart(l, w, node, h);
        let a = live_ids(l, h);
        let b = live_ids(w, h);
        if l.is_live(x) {
            let v = values_at(l, live_ids(l, ids));
            assert(v =~= values_at(l, a).push(l.items[x].value));
            assert(v.drop_last() =~= values_at(l, a));
            if w.is_live(x) {
                assert(values_at(w, live_ids(w, ids)) =~= values_at(w, b).push(l.items[x].value));
            }
        }
    }
}

/// What a sequence reads with a node's places suppressed.
proof fn lemma_sans_reads(t: TreeV, l: ElementId, node: ElementId)
    requires
        items_told(t),
        t.lists.dom().contains(l),
    ensures
        list_values(sans(t, l, node)) == apart_from(list_values(t.lists[l]), node),
        sans(t, l, node).places == t.lists[l].places,
        sans(t, l, node).items.dom() == t.lists[l].items.dom(),
{
    let a = t.lists[l];
    let w = sans(t, l, node);
    let ids = order(a.places);
    assert(w.items.dom() =~= a.items.dom());
    assert forall|i: int| 0 <= i < ids.len() implies w.is_live(#[trigger] ids[i]) == (a.is_live(
        ids[i],
    ) && !names_node(a.items[ids[i]].value, node)) by {
        let q = Placement { list: l, stamp: ids[i] };
        if a.items.dom().contains(ids[i]) {
            reveal(items_told);
            assert(has_item(t, q));
            assert(names_node(t.lists[q.list].items[q.stamp].value, node) <==> (
            t.placement_index.dom().contains(q) && t.placement_index[q] == node));
        }
    }
    lemma_read_apart(a, w, node, ids);
}

/// Where a move goes: past as many of the others as its index says.
proof fn lemma_move_place(t: TreeV, dest: ElementId, node: ElementId, index: nat)
    requires
        in_place(t),
        t.lists.dom().contains(dest),
        t.placements.dom().contains(node),
    ensures
        list_place(t.lists[dest], index, latest_in(t.placements[node], dest)) == list_place(
            sans(t, dest, node),
            index,
            None,
        ),
{
    let l = t.lists[dest];
    let w = sans(t, dest, node);
    let ids = order(l.places);
    let own = latest_in(t.placements[node], dest);
    lemma_latest(t.placements[node], dest);
    lemma_seated_held(t);
    assert forall|i: int| 0 <= i < ids.len() implies counts(l, #[trigger] ids[i], own) == w.is_live(
        ids[i],
    ) by {
        let q = Placement { list: dest, stamp: ids[i] };
        reveal(held_well);
        if l.items.dom().contains(ids[i]) {
            assert(has_item(t, q));
            if t.placement_index.dom().contains(q) && t.placement_index[q] == node {
                assert(t.placements[node].contains(q));
                reveal(shown_right);
                assert(item_right(t, q));
            } else if own == Some(ids[i]) {
                assert(t.placements[node].contains(q));
            }
        }
    }
    lemma_gap_counts(l, w, ids, index, own);
}

// --- the law ---

/// Whether a replica's next stamp for a move of a node into a sequence is to be had, and is
/// later than everything it places.
pub open spec fn mints_latest(d: DocV, list: ElementId, node: ElementId) -> bool {
    forall|anchor: Anchor|
        (#[trigger] d.mint(list, OpKindV::XmlMove { node, anchor })) is Some && is_latest(
            d.tree,
            d.mint(list, OpKindV::XmlMove { node, anchor })->Some_0,
        )
}

/// Whether everything a replica places was stamped by a clock that its own has reached.
pub open spec fn clock_covers(d: DocV, list: ElementId, node: ElementId) -> bool {
    forall|anchor: Anchor|
        {
            let n = d.clock(
                #[trigger] zone_of_op(
                    d.tree,
                    d.schema,
                    list,
                    OpKindV::XmlMove { node, anchor },
                ),
            );
            &&& forall|r: Stamp| #[trigger] d.tree.moves.log.dom().contains(r) ==> r.lamport <= n
            &&& forall|p: Placement| #[trigger]
                d.tree.placement_index.dom().contains(p) ==> p.stamp.lamport <= n
            &&& forall|l: ElementId, y: Stamp|
                d.tree.lists.dom().contains(l) && #[trigger] d.tree.lists[l].places.dom().contains(
                    y,
                ) ==> y.lamport <= n && (d.tree.lists[l].places[y].parent matches Some(x)
                    ==> x.lamport <= n)
        }
}

/// A replica whose clock has reached everything it places stamps what it moves later than
/// all of it.
pub proof fn law_covered_clocks_mint_the_latest(d: DocV, list: ElementId, node: ElementId)
    requires
        clock_covers(d, list, node),
        forall|anchor: Anchor| (#[trigger] d.mint(list, OpKindV::XmlMove { node, anchor })) is Some,
    ensures
        mints_latest(d, list, node),
{
    assert forall|anchor: Anchor|
        (#[trigger] d.mint(list, OpKindV::XmlMove { node, anchor })) is Some && is_latest(
            d.tree,
            d.mint(list, OpKindV::XmlMove { node, anchor })->Some_0,
        ) by {
        let kind = OpKindV::XmlMove { node, anchor };
        let s = d.mint(list, kind)->Some_0;
        law_mints_clear_the_record(d, list, kind);
        let z = zone_of_op(d.tree, d.schema, list, kind);
        assert(s.lamport > d.clock(z));
    }
}

/// There is one latest placement.
proof fn lemma_one_latest(places: Seq<Placement>, list: ElementId)
    ensures
        crate::cursor::latest_in(places, list) == latest_in(places, list),
    decreases places.len(),
{
    if places.len() > 0 {
        lemma_one_latest(places.drop_last(), list);
    }
}

/// The state a move at an index leads to.
proof fn lemma_with_move(d: DocV, node: ElementId, parent: ElementId, index: nat) -> (op: OpV)
    requires
        in_place(d.tree),
        may_move(d.tree, node, parent),
        mints_latest(d, node_children_id(parent), node),
    ensures
        ({
            let dest = node_children_id(parent);
            let anchor = list_place(
                d.tree.lists[dest],
                index,
                latest_in(d.tree.placements[node], dest),
            );
            &&& is_move(op, node, parent, anchor, op.stamp)
            &&& is_latest(d.tree, op.stamp)
            &&& d.mint(dest, OpKindV::XmlMove { node, anchor }) == Some(op.stamp)
            &&& d.with_move(node, parent, index) == d.emitted(
                dest,
                OpKindV::XmlMove { node, anchor },
            )
            &&& d.with_move(node, parent, index).tree == wet(
                moved(d.tree, op).refold(),
                raised(d.tree.high_water, op.stamp, spec_span(op.kind)),
            )
        }),
{
    let dest = node_children_id(parent);
    let anchor = list_place(d.tree.lists[dest], index, latest_in(d.tree.placements[node], dest));
    let op = lemma_emitted_move(d, node, parent, anchor);
    lemma_one_latest(d.tree.placements[node], dest);
    assert(d.with_move(node, parent, index) == d.emitted(dest, OpKindV::XmlMove { node, anchor }));
    op
}

/// The state a move to a place leads to.
pub(crate) proof fn lemma_emitted_move(
    d: DocV,
    node: ElementId,
    parent: ElementId,
    anchor: Anchor,
) -> (op: OpV)
    requires
        in_place(d.tree),
        may_move(d.tree, node, parent),
        mints_latest(d, node_children_id(parent), node),
    ensures
        ({
            let dest = node_children_id(parent);
            let kind = OpKindV::XmlMove { node, anchor };
            &&& is_move(op, node, parent, anchor, op.stamp)
            &&& is_latest(d.tree, op.stamp)
            &&& d.mint(dest, kind) == Some(op.stamp)
            &&& d.emitted(dest, kind).tree == wet(
                moved(d.tree, op).refold(),
                raised(d.tree.high_water, op.stamp, spec_span(op.kind)),
            )
        }),
{
    let dest = node_children_id(parent);
    let kind = OpKindV::XmlMove { node, anchor };
    let s = d.mint(dest, kind)->Some_0;
    assert(d.mint(dest, kind) is Some);
    let op = OpV {
        id: OpId { client: d.client, seq: 0 },
        stamp: s,
        target: dest,
        kind,
        tx: None,
        zone: None,
    };
    reveal(DocV::emitted);
    lemma_moved_held(d.tree, op, node, parent, anchor, s);
    lemma_settling_applied(d.tree, op);
    op
}

/// A move lands at its index: a placed node that goes under a parent it is not above, at an
/// index no greater than how many others the parent's children read, reads at that index of
/// them, with the others as they were; every other sequence reads as it did without it.
pub proof fn law_a_move_lands_at_its_index(
    d: DocV,
    node: ElementId,
    parent: ElementId,
    index: nat,
    l: ElementId,
)
    requires
        in_place(d.tree),
        may_move(d.tree, node, parent),
        mints_latest(d, node_children_id(parent), node),
        index <= apart_from(list_values(d.tree.lists[node_children_id(parent)]), node).len(),
        d.tree.lists.dom().contains(l),
    ensures
        ({
            let t = d.tree;
            let u = d.with_move(node, parent, index).tree;
            let h = t.node_handle(node)->Some_0;
            &&& names_node(h, node)
            &&& u.lists.dom() == t.lists.dom()
            &&& list_values(u.lists[l]) == if l == node_children_id(parent) {
                apart_from(list_values(t.lists[l]), node).insert(index as int, h)
            } else {
                apart_from(list_values(t.lists[l]), node)
            }
            &&& link_of(u.parents, node) == Some(node_children_id(parent))
        }),
{
    let t = d.tree;
    let dest = node_children_id(parent);
    let op = lemma_with_move(d, node, parent, index);
    let s = op.stamp;
    let anchor = list_place(t.lists[dest], index, latest_in(t.placements[node], dest));
    let h = t.node_handle(node)->Some_0;
    assert(t.node_handle(node) is Some) by {
        reveal(seated);
    }
    lemma_moved_lists(t, op, node, parent, anchor, s, l);
    lemma_moved_links(t, op, node, parent, anchor, s);
    lemma_sans_reads(t, l, node);
    if l == dest {
        let w = sans(t, dest, node);
        lemma_move_place(t, dest, node, index);
        assert(is_new(w.places, s));
        assert(!w.items.dom().contains(s));
        law_insert_lands_at_its_index(w, s, h, index);
    }
}

// --- a move undone ---

/// Whether two readings are one: the same values, with nodes told by their ids.
pub open spec fn same_reading(v: Seq<ElementV>, w: Seq<ElementV>) -> bool {
    v.len() == w.len() && forall|i: int|
        0 <= i < v.len() ==> #[trigger] v[i] == w[i] || (v[i].opt_id() is Some && v[i].opt_id()
            == w[i].opt_id())
}

proof fn lemma_apart_none(v: Seq<ElementV>, node: ElementId)
    requires
        forall|i: int| 0 <= i < v.len() ==> !names_node(#[trigger] v[i], node),
    ensures
        apart_from(v, node) == v,
    decreases v.len(),
{
    if v.len() > 0 {
        let h = v.drop_last();
        assert forall|i: int| 0 <= i < h.len() implies !names_node(#[trigger] h[i], node) by {
            assert(h[i] == v[i]);
        }
        assert(v[v.len() - 1] == v.last());
        lemma_apart_none(h, node);
        assert(h.push(v.last()) =~= v);
    }
}

proof fn lemma_apart_names(v: Seq<ElementV>, node: ElementId)
    ensures
        forall|i: int|
            0 <= i < apart_from(v, node).len() ==> !names_node(
                #[trigger] apart_from(v, node)[i],
                node,
            ),
    decreases v.len(),
{
    if v.len() > 0 {
        let h = v.drop_last();
        lemma_apart_names(h, node);
        assert forall|i: int| 0 <= i < apart_from(v, node).len() implies !names_node(
            #[trigger] apart_from(v, node)[i],
            node,
        ) by {
            if i < apart_from(h, node).len() {
                assert(!names_node(apart_from(h, node)[i], node));
            }
        }
    }
}

proof fn lemma_apart_one(v: Seq<ElementV>, node: ElementId, k: int)
    requires
        0 <= k < v.len(),
        names_node(v[k], node),
        forall|i: int| 0 <= i < v.len() && i != k ==> !names_node(#[trigger] v[i], node),
    ensures
        apart_from(v, node) == v.remove(k),
    decreases v.len(),
{
    let h = v.drop_last();
    assert(v[v.len() - 1] == v.last());
    if k == v.len() - 1 {
        assert forall|i: int| 0 <= i < h.len() implies !names_node(#[trigger] h[i], node) by {
            assert(h[i] == v[i]);
        }
        lemma_apart_none(h, node);
        assert(v.remove(k) =~= h);
    } else {
        assert(h[k] == v[k]);
        assert forall|i: int| 0 <= i < h.len() && i != k implies !names_node(
            #[trigger] h[i],
            node,
        ) by {
            assert(h[i] == v[i]);
        }
        lemma_apart_one(h, node, k);
        assert(h.remove(k).push(v.last()) =~= v.remove(k));
    }
}

/// A node reads where it shows, and nowhere else.
proof fn lemma_reads_where_it_shows(t: TreeV, l: ElementId, node: ElementId, i: int)
    requires
        in_place(t),
        t.lists.dom().contains(l),
        0 <= i < list_values(t.lists[l]).len(),
        names_node(list_values(t.lists[l])[i], node),
    ensures
        t.placements.dom().contains(node),
        link_of(t.parents, node) == Some(l),
        latest_in(t.placements[node], l) == Some(list_live(t.lists[l])[i]),
        t.placement_index.dom().contains(Placement { list: l, stamp: list_live(t.lists[l])[i] }),
        t.placement_index[Placement { list: l, stamp: list_live(t.lists[l])[i] }] == node,
{
    let a = t.lists[l];
    let s = list_live(a)[i];
    lemma_live_in_items(a, order(a.places), i);
    let q = Placement { list: l, stamp: s };
    reveal(items_told);
    assert(has_item(t, q));
    assert(names_node(t.lists[q.list].items[q.stamp].value, node) <==> (
    t.placement_index.dom().contains(q) && t.placement_index[q] == node));
    lemma_seated_held(t);
    reveal(held_well);
    reveal(shown_right);
    assert(item_right(t, q));
    assert(a.is_live(s)) by {
        lemma_live_is_live(a, order(a.places), i);
    }
}

proof fn lemma_live_is_live(l: ListV, s: Seq<Stamp>, i: int)
    requires
        0 <= i < live_ids(l, s).len(),
    ensures
        l.is_live(live_ids(l, s)[i]),
    decreases s.len(),
{
    let r = live_ids(l, s.drop_last());
    if i < r.len() {
        lemma_live_is_live(l, s.drop_last(), i);
    }
}

/// What a node hangs off has its children.
proof fn lemma_parent_has_children(t: TreeV, node: ElementId)
    requires
        in_place(t),
        t.placements.dom().contains(node),
    ensures
        t.moves.tree().dom().contains(node),
        has_children(t, t.moves.tree()[node]),
        link_of(t.parents, node) == Some(node_children_id(t.moves.tree()[node])),
{
    reveal(seated);
    let o = t.moves.tree()[node];
    let s = in_order(t.moves.log.dom());
    lemma_replayed(t.moves.base, t.moves.log, s, node);
    if !(t.moves.base.dom().contains(node) && o == t.moves.base[node]) {
        lemma_in_order(t.moves.log.dom());
        let i = choose|i: int|
            0 <= i < s.len() && t.moves.log[#[trigger] s[i]].child == node && o
                == t.moves.log[s[i]].parent;
        assert(s.to_set().contains(s[i]));
        assert(t.moves.log.dom().contains(s[i]));
    }
}

proof fn lemma_climbs_past(
    tree: Map<ElementId, ElementId>,
    node: ElementId,
    parent: ElementId,
    x: ElementId,
    k: nat,
) -> (j: nat)
    requires
        climbs(tree.insert(node, parent), x, node, k),
    ensures
        climbs(tree, x, node, j),
    decreases k,
{
    if x == node {
        0
    } else {
        let j = lemma_climbs_past(tree, node, parent, tree[x], (k - 1) as nat);
        assert(climbs(tree, x, node, j + 1));
        j + 1
    }
}

/// A node that moved may go back where it was.
proof fn lemma_may_go_back(
    t: TreeV,
    op: OpV,
    node: ElementId,
    parent: ElementId,
    anchor: Anchor,
    s: Stamp,
    hw: Map<ClientId, u64>,
)
    requires
        in_place(t),
        may_move(t, node, parent),
        is_latest(t, s),
        is_move(op, node, parent, anchor, s),
    ensures
        may_move(wet(moved(t, op).refold(), hw), node, t.moves.tree()[node]),
{
    let x = moved(t, op);
    let u = x.refold();
    let v = wet(u, hw);
    let o = t.moves.tree()[node];
    let dest = op.target;
    lemma_moved_held(t, op, node, parent, anchor, s);
    lemma_moved_links(t, op, node, parent, anchor, s);
    lemma_refold_keeps(x);
    lemma_moved_lists(t, op, node, parent, anchor, s, dest);
    lemma_parent_has_children(t, node);
    assert(has_children(v, o)) by {
        assert(node_children_id(o) != node);
    }
    let places = u.placements[node];
    assert(!v.any_tombstoned(places)) by {
        if v.any_tombstoned(places) {
            let i = choose|i: int| 0 <= i < places.len() && v.is_tombstoned(#[trigger] places[i]);
            let q = places[i];
            assert(u.is_tombstoned(q));
            lemma_moved_tombs(t, op, node, parent, anchor, s, q);
            assert(x.is_tombstoned(q)) by {
                assert(t.lists.dom().contains(q.list));
                lemma_moved_lists(t, op, node, parent, anchor, s, q.list);
                let w = after_move(t, q.list, node, dest, s, anchor);
                assert(w.items.dom() =~= x.lists[q.list].items.dom());
            }
            assert(t.is_tombstoned(q));
            if i < t.placements[node].len() {
                assert(t.placements[node][i] == q);
                assert(t.any_tombstoned(t.placements[node]));
            } else {
                assert(q == Placement { list: dest, stamp: s });
                assert(is_new(t.lists[dest].places, s));
            }
        }
    }
    law_moves_never_close_a_loop(t.moves);
    let tree = t.moves.tree();
    assert forall|k: nat| !#[trigger] climbs(v.moves.tree(), o, node, k) by {
        if climbs(v.moves.tree(), o, node, k) {
            let j = lemma_climbs_past(tree, node, parent, o, k);
            assert(climbs(tree, o, o, 0));
            assert(climbs(tree, node, o, 1)) by {
                assert(climbs(tree, tree[node], o, 0));
            }
            lemma_climb_join(tree, node, o, 1, node, j);
        }
    }
}

// --- what leads to the root ---

/// What leads to the root without passing a node still does when the node moves; what
/// passes it passes what the node hangs off.
proof fn lemma_leads_past(
    t: TreeV,
    u: TreeV,
    node: ElementId,
    dest: ElementId,
    from: ElementId,
    x: ElementId,
    n: nat,
) -> (m: nat)
    requires
        t.leads_to_root(x, false, n),
        link_of(t.parents, node) == Some(from),
        u.parents == t.parents.insert(node, dest),
        u.ranged == t.ranged,
        forall|y: ElementId| (#[trigger] t.container_state(y)) is Some ==> u.container_state(
            y,
        ) is Some,
    ensures
        u.leads_to_root(x, false, n) || (m < n && t.leads_to_root(from, false, m)),
    decreases n,
{
    if x == root_element() {
        0
    } else if x == node {
        (n - 1) as nat
    } else {
        assert(t.container_state(x) is Some);
        let p = t.holder(x)->Some_0;
        assert(u.holder(x) == t.holder(x));
        lemma_leads_past(t, u, node, dest, from, p, (n - 1) as nat)
    }
}

proof fn lemma_leads_longer(t: TreeV, x: ElementId, m: nat, n: nat)
    requires
        t.leads_to_root(x, false, m),
        m <= n,
    ensures
        t.leads_to_root(x, false, n),
    decreases m,
{
    if x != root_element() {
        lemma_leads_longer(t, t.holder(x)->Some_0, (m - 1) as nat, (n - 1) as nat);
    }
}

proof fn lemma_still_leads(
    t: TreeV,
    u: TreeV,
    node: ElementId,
    dest: ElementId,
    from: ElementId,
    n: nat,
)
    requires
        t.leads_to_root(from, false, n),
        link_of(t.parents, node) == Some(from),
        u.parents == t.parents.insert(node, dest),
        u.ranged == t.ranged,
        forall|y: ElementId| (#[trigger] t.container_state(y)) is Some ==> u.container_state(
            y,
        ) is Some,
    ensures
        u.leads_to_root(from, false, n),
    decreases n,
{
    let m = lemma_leads_past(t, u, node, dest, from, from, n);
    if !u.leads_to_root(from, false, n) {
        lemma_still_leads(t, u, node, dest, from, m);
        lemma_leads_longer(u, from, m, n);
    }
}

/// A sequence that a node left is still reached.
proof fn lemma_still_materialised(
    t: TreeV,
    op: OpV,
    node: ElementId,
    parent: ElementId,
    anchor: Anchor,
    s: Stamp,
    hw: Map<ClientId, u64>,
    from: ElementId,
)
    requires
        in_place(t),
        may_move(t, node, parent),
        is_latest(t, s),
        is_move(op, node, parent, anchor, s),
        link_of(t.parents, node) == Some(from),
        t.materialised(from),
    ensures
        wet(moved(t, op).refold(), hw).materialised(from),
{
    let x = moved(t, op);
    let v = wet(x.refold(), hw);
    lemma_moved_held(t, op, node, parent, anchor, s);
    lemma_moved_links(t, op, node, parent, anchor, s);
    lemma_moved_lists(t, op, node, parent, anchor, s, op.target);
    lemma_refold_keeps(x);
    assert(v.parents.dom() =~= t.parents.dom());
    lemma_still_leads(t, v, node, op.target, from, t.parents.dom().len() + 2);
}

// --- the law ---

proof fn lemma_gap_within(l: ListV, s: Seq<Stamp>, index: nat, exclude: Option<Stamp>)
    ensures
        gap_at(l, s, index, exclude) <= s.len(),
    decreases s.len(),
{
    if s.len() > 0 && index > 0 {
        lemma_gap_within(
            l,
            s.skip(1),
            if counts(l, s[0], exclude) {
                (index - 1) as nat
            } else {
                index
            },
            exclude,
        );
    }
}

/// An insert attaches to what a sequence has.
proof fn lemma_place_known(l: ListV, index: nat, exclude: Option<Stamp>)
    requires
        l.places.dom().finite(),
    ensures
        list_place(l, index, exclude).parent matches Some(p) ==> l.places.dom().contains(p),
{
    let s = order(l.places);
    lemma_gap_within(l, s, index, exclude);
    let b = gap_at(l, s, index, exclude) as int;
    if b > 0 {
        assert(s.contains(s[b - 1]));
        let d = lemma_order_depth(l.places, s[b - 1]);
        assert(l.places.dom().contains(s[b - 1]));
    }
    if b < s.len() {
        assert(s.contains(s[b]));
        let d = lemma_order_depth(l.places, s[b]);
        assert(l.places.dom().contains(s[b]));
    }
}

/// A sequence read after a node moved and moved back.
proof fn lemma_back_reads(
    t: TreeV,
    op: OpV,
    node: ElementId,
    parent: ElementId,
    index: nat,
    anchor: Anchor,
    s: Stamp,
    hw: Map<ClientId, u64>,
    back: OpV,
    r: Stamp,
    from: ElementId,
    slot: Stamp,
    k: int,
    l: ElementId,
)
    requires
        in_place(t),
        may_move(t, node, parent),
        is_latest(t, s),
        is_move(op, node, parent, anchor, s),
        anchor == list_place(
            t.lists[op.target],
            index,
            latest_in(t.placements[node], op.target),
        ),
        from == node_children_id(t.moves.tree()[node]),
        0 <= k < list_values(t.lists[from]).len(),
        names_node(list_values(t.lists[from])[k], node),
        list_live(t.lists[from])[k] == slot,
        is_latest(wet(moved(t, op).refold(), hw), r),
        is_move(
            back,
            node,
            t.moves.tree()[node],
            list_place(t.lists[from], k as nat, Some(slot)),
            r,
        ),
        t.lists.dom().contains(l),
    ensures
        same_reading(
            list_values(moved(wet(moved(t, op).refold(), hw), back).refold().lists[l]),
            list_values(t.lists[l]),
        ),
{
    let dest = op.target;
    let u = wet(moved(t, op).refold(), hw);
    let o = t.moves.tree()[node];
    let a2 = list_place(t.lists[from], k as nat, Some(slot));
    let v0 = list_values(t.lists[l]);
    lemma_moved_in_place(t, op, node, parent, anchor, s, hw);
    lemma_may_go_back(t, op, node, parent, anchor, s, hw);
    lemma_moved_lists(t, op, node, parent, anchor, s, l);
    lemma_moved_lists(t, op, node, parent, anchor, s, from);
    assert(u.lists[l] == after_move(t, l, node, dest, s, anchor));
    lemma_moved_lists(u, back, node, o, a2, r, l);
    let fin = moved(u, back).refold().lists[l];
    assert(fin == after_move(u, l, node, from, r, a2));
    lemma_reads_where_it_shows(t, from, node, k);
    lemma_place_known(t.lists[dest], index, latest_in(t.placements[node], dest));
    assert(is_new(t.lists[dest].places, s));
    assert(anchor.parent != Some(s));
    lemma_sans_reads(t, l, node);
    lemma_sans_reads(u, l, node);
    lemma_parent_has_children(t, node);
    lemma_moved_held(t, op, node, parent, anchor, s);
    lemma_refold_keeps(moved(t, op));
    assert(u.node_handle(node) == t.node_handle(node));
    let h = t.node_handle(node)->Some_0;
    assert(t.node_handle(node) is Some) by {
        reveal(seated);
    }
    if l != from {
        // The node read nowhere in it before, and does not now.
        assert forall|i: int| 0 <= i < v0.len() implies !names_node(#[trigger] v0[i], node) by {
            if names_node(v0[i], node) {
                lemma_reads_where_it_shows(t, l, node, i);
            }
        }
        lemma_apart_none(v0, node);
        let w = sans(u, l, node);
        assert(list_values(w) == apart_from(list_values(u.lists[l]), node));
        lemma_sans_twice(t, op, node, parent, anchor, s, hw, l);
        assert(list_values(w) == v0);
    } else {
        let w0 = sans(t, from, node);
        lemma_move_place(t, from, node, k as nat);
        assert(a2 == list_place(w0, k as nat, None));
        assert(is_new(u.lists[from].places, r));
        assert(is_new(t.lists[from].places, s));
        assert(v0.len() == list_live(t.lists[from]).len());
        assert forall|i: int| 0 <= i < v0.len() && i != k implies !names_node(
            #[trigger] v0[i],
            node,
        ) by {
            if names_node(v0[i], node) {
                lemma_reads_where_it_shows(t, from, node, i);
                law_order_has_no_repeats(t.lists[from].places);
                lemma_live_no_dup(t.lists[from], order(t.lists[from].places));
                assert(list_live(t.lists[from])[i] == slot);
            }
        }
        lemma_apart_one(v0, node, k);
        assert(list_values(w0) == v0.remove(k));
        assert(is_new(w0.places, r)) by {
            if from == dest {
                assert(u.lists[from].places == t.lists[from].places.insert(s, anchor));
                assert forall|y: Stamp| #[trigger] w0.places.dom().contains(y)
                    implies w0.places[y].parent != Some(r) by {
                    assert(u.lists[from].places.dom().contains(y));
                    assert(u.lists[from].places[y] == w0.places[y]);
                }
                assert(u.lists[from].places.dom().contains(r) == (w0.places.dom().contains(r) || r
                    == s));
            }
        }
        law_insert_lands_at_its_index(w0, r, h, k as nat);
        let one = list_insert(w0, r, h, a2);
        assert(list_values(one) == v0.remove(k).insert(k, h));
        lemma_sans_twice(t, op, node, parent, anchor, s, hw, from);
        assert(list_values(fin) == list_values(one)) by {
            if from == dest {
                lemma_place_known(t.lists[from], k as nat, Some(slot));
                let c = sans(u, from, node);
                assert(r != s);
                assert(fin.places =~= one.places.insert(s, anchor));
                assert(fin.items =~= one.items.insert(s, ItemV { value: h, moved_away: true }));
                assert(is_new(one.places, s));
                lemma_suppressed_reads(one, s, anchor, h, fin);
            } else {
                assert(sans(u, from, node) == w0);
            }
        }
        let f = v0.remove(k).insert(k, h);
        assert forall|i: int| 0 <= i < f.len() implies #[trigger] f[i] == v0[i] || (f[i].opt_id()
            is Some && f[i].opt_id() == v0[i].opt_id()) by {
            if i == k {
                assert(names_node(h, node) && names_node(v0[k], node));
            }
        }
    }
}

/// A sequence with a node's places suppressed, after the node moved: as before, with the
/// new place suppressed too where there is one.
proof fn lemma_sans_twice(
    t: TreeV,
    op: OpV,
    node: ElementId,
    parent: ElementId,
    anchor: Anchor,
    s: Stamp,
    hw: Map<ClientId, u64>,
    l: ElementId,
)
    requires
        in_place(t),
        may_move(t, node, parent),
        is_latest(t, s),
        is_move(op, node, parent, anchor, s),
        anchor.parent != Some(s),
        t.lists.dom().contains(l),
    ensures
        ({
            let u = wet(moved(t, op).refold(), hw);
            let w = sans(t, l, node);
            &&& l != op.target ==> sans(u, l, node) == w
            &&& l == op.target ==> sans(u, l, node) == (ListV {
                places: w.places.insert(s, anchor),
                items: w.items.insert(
                    s,
                    ItemV { value: t.node_handle(node)->Some_0, moved_away: true },
                ),
                ..w
            })
            &&& apart_from(list_values(u.lists[l]), node) == apart_from(
                list_values(t.lists[l]),
                node,
            ) || l == op.target
            &&& l == op.target ==> list_values(sans(u, l, node)) == list_values(w)
        }),
{
    let x = moved(t, op);
    let u = wet(x.refold(), hw);
    let w = sans(t, l, node);
    let dest = op.target;
    lemma_moved_lists(t, op, node, parent, anchor, s, l);
    lemma_moved_held(t, op, node, parent, anchor, s);
    lemma_refold_keeps(x);
    assert(u.placement_index == x.placement_index);
    assert(is_new(t.lists[l].places, s));
    assert(w.items.dom() =~= t.lists[l].items.dom());
    let b = sans(u, l, node);
    if l == dest {
        let c = ListV {
            places: w.places.insert(s, anchor),
            items: w.items.insert(
                s,
                ItemV { value: t.node_handle(node)->Some_0, moved_away: true },
            ),
            ..w
        };
        assert(b.items =~= c.items);
        assert(b.places =~= c.places);
        assert(b == c);
        // What is suppressed reads nothing.
        lemma_suppressed_reads(w, s, anchor, t.node_handle(node)->Some_0, c);
    } else {
        assert(b.items =~= w.items);
        assert(b == w);
        lemma_moved_in_place(t, op, node, parent, anchor, s, hw);
        lemma_sans_reads(u, l, node);
        lemma_sans_reads(t, l, node);
    }
}

/// One more item that is suppressed does not change what a sequence reads.
proof fn lemma_suppressed_reads(w: ListV, s: Stamp, anchor: Anchor, h: ElementV, c: ListV)
    requires
        w.places.dom().finite(),
        is_new(w.places, s),
        !w.items.dom().contains(s),
        anchor.parent != Some(s),
        c == (ListV {
            places: w.places.insert(s, anchor),
            items: w.items.insert(s, ItemV { value: h, moved_away: true }),
            ..w
        }),
    ensures
        list_live(c) == list_live(w),
        list_values(c) == list_values(w),
{
    law_a_new_id_moves_no_other(w.places, s, anchor);
    lemma_live_omitting(c, order(c.places), s);
    let ids = order(w.places);
    assert forall|i: int| 0 <= i < ids.len() implies c.is_live(#[trigger] ids[i]) == w.is_live(
        ids[i],
    ) by {
        assert(ids.contains(ids[i]));
        let d = lemma_order_depth(w.places, ids[i]);
        assert(w.places.dom().contains(ids[i]));
        assert(ids[i] != s);
    }
    lemma_live_same(c, w, ids);
    let live = list_live(w);
    assert forall|i: int| 0 <= i < live.len() implies list_values(c)[i] == list_values(w)[i] by {
        lemma_live_in_items(w, ids, i);
        assert(live[i] != s);
    }
    assert(list_values(c) =~= list_values(w));
}

proof fn lemma_under_none(t: TreeV, id: ElementId, fuel: nat)
    ensures
        !t.under_any(id, Seq::empty(), fuel),
    decreases fuel,
{
    if fuel > 0 && id != root_element() {
        if let Some(p) = link_of(t.parents, id) {
            lemma_under_none(t, p, (fuel - 1) as nat);
        }
    }
}

/// A move is undone by itself.
proof fn lemma_plan_move(t: TreeV, to: ElementId, node: ElementId, anchor: Anchor)
    ensures
        ({
            let step = StepV::Op { target: to, kind: OpKindV::XmlMove { node, anchor } };
            t.plan(seq![step]) == seq![step]
        }),
{
    let step = StepV::Op { target: to, kind: OpKindV::XmlMove { node, anchor } };
    let one = seq![step];
    reveal(TreeV::plan);
    assert(one.reverse() =~= one);
    assert(one.drop_last() =~= Seq::empty());
    assert(t.removed_by(Seq::empty()) =~= Seq::empty());
    assert(t.removed_by(one) =~= Seq::empty());
    lemma_under_none(t, to, t.parents.dom().len() + 1);
    assert(t.kept_steps(Seq::empty(), Seq::empty()) =~= Seq::empty());
    assert(t.kept_steps(one, Seq::empty()) =~= one);
}

proof fn lemma_first_index(s: Seq<Stamp>, x: Stamp, k: int)
    requires
        s.no_duplicates(),
        0 <= k < s.len(),
        s[k] == x,
    ensures
        first_index(s, x) == Some(k as nat),
    decreases s.len(),
{
    if k > 0 {
        assert(s[0] != s[k]);
        let t = s.skip(1);
        assert(t[k - 1] == x);
        assert forall|i: int, j: int| 0 <= i < j < t.len() implies t[i] != t[j] by {
            assert(s[i + 1] != s[j + 1]);
        }
        lemma_first_index(t, x, k - 1);
    }
}

/// Whether no earlier undo put something else in the place of a node, of a sequence, or of
/// anything in it.
pub open spec fn stands_for_itself(h: HistoryV, node: ElementId, list: ElementId) -> bool {
    &&& h.current_element(node) == node
    &&& h.current_element(list) == list
    &&& forall|id: Stamp| #[trigger] h.current(list, id) == id
}

/// Undoing a move puts the node back where it was read: where a node is read in what it
/// hangs off, and its author moves it and then undoes that with nothing in between, every
/// sequence, that of the old parent and that of the new one among them, reads as it did
/// before the move, nodes told by their ids.
pub proof fn law_undoing_a_move_restores_what_was_read(
    d: DocV,
    origin: Seq<u8>,
    node: ElementId,
    parent: ElementId,
    index: nat,
    from: ElementId,
    k: int,
    l: ElementId,
)
    requires
        records(d, origin),
        in_place(d.tree),
        may_move(d.tree, node, parent),
        d.tree.lists.dom().contains(from),
        0 <= k < list_values(d.tree.lists[from]).len(),
        names_node(list_values(d.tree.lists[from])[k], node),
        d.tree.materialised(from),
        stands_for_itself(d.history, node, from),
        mints_latest(d.begun(), node_children_id(parent), node),
        mints_latest(d.begun().with_move(node, parent, index), from, node),
        d.tree.lists.dom().contains(l),
    ensures
        d.begun().with_move(node, parent, index).ended().after_undo(origin) matches Some(u)
            && u.tree.lists.dom().contains(l) && same_reading(
            list_values(u.tree.lists[l]),
            list_values(d.tree.lists[l]),
        ),
{
    let t = d.tree;
    let b = d.begun();
    let dest = node_children_id(parent);
    let o = t.moves.tree()[node];
    let slot = list_live(t.lists[from])[k];
    let op = lemma_with_move(b, node, parent, index);
    let s = op.stamp;
    let anchor = list_place(t.lists[dest], index, latest_in(t.placements[node], dest));
    let hw = raised(t.high_water, s, spec_span(op.kind));
    let e = b.with_move(node, parent, index);
    let u = e.tree;
    assert(u == wet(moved(t, op).refold(), hw));
    lemma_reads_where_it_shows(t, from, node, k);
    lemma_parent_has_children(t, node);
    assert(from == node_children_id(o));
    let a2 = list_place(t.lists[from], k as nat, Some(slot));
    let kind1 = OpKindV::XmlMove { node, anchor };
    let kind2 = OpKindV::XmlMove { node, anchor: a2 };
    law_order_has_no_repeats(t.lists[from].places);
    lemma_live_no_dup(t.lists[from], order(t.lists[from].places));
    lemma_first_index(list_live(t.lists[from]), slot, k);
    assert(t.move_inverse(node) == Some(StepV::Op { target: from, kind: kind2 }));
    assert(t.inverse(dest, kind1, s) =~= seq![StepV::Op { target: from, kind: kind2 }]);
    lemma_plan_move(u, from, node, a2);
    lemma_still_materialised(t, op, node, parent, anchor, s, hw, from);
    lemma_moved_in_place(t, op, node, parent, anchor, s, hw);
    lemma_may_go_back(t, op, node, parent, anchor, s, hw);
    assert(names_stand(d.history, from, kind2)) by {
        if let Some(x) = a2.parent {
            assert(d.history.current(from, x) == x);
        }
    }
    lemma_one_undone(d, origin, dest, kind1, from, kind2);
    let back = lemma_emitted_move(e, node, o, a2);
    let r = back.stamp;
    lemma_back_reads(
        t,
        op,
        node,
        parent,
        index,
        anchor,
        s,
        hw,
        back,
        r,
        from,
        slot,
        k,
        l,
    );
    lemma_moved_lists(t, op, node, parent, anchor, s, l);
    lemma_moved_lists(u, back, node, o, a2, r, l);
}

// --- the replicas this holds of ---

/// What is displaced does not show in where nodes stand.
proof fn lemma_plain_placed(t: TreeV)
    requires
        seated(t.plain()),
        shown_right(t.plain()),
    ensures
        seated(t),
        shown_right(t),
{
    let p = t.plain();
    assert(p.lists.dom() =~= t.lists.dom());
    assert(p.texts.dom() =~= t.texts.dom());
    assert(p.xml_elements.dom() =~= t.xml_elements.dom());
    assert forall|l: ElementId| #[trigger] t.lists.dom().contains(l) implies p.lists[l].places
        == t.lists[l].places && p.lists[l].items == t.lists[l].items by {}
    assert forall|l: ElementId| #[trigger] t.texts.dom().contains(l) implies p.texts[l].items
        == t.texts[l].items by {}
    assert(seated(t)) by {
        reveal(seated);
        assert(p.placements == t.placements && p.placement_index == t.placement_index);
        assert(p.moves == t.moves && p.parents == t.parents);
        assert forall|n: ElementId, q: Placement|
            t.placements.dom().contains(n) implies (#[trigger] t.placements[n].contains(q) <==> (
        t.placement_index.dom().contains(q) && t.placement_index[q] == n)) by {
            assert(p.placements[n].contains(q) <==> (p.placement_index.dom().contains(q)
                && p.placement_index[q] == n));
        }
        assert forall|n: ElementId| #[trigger] t.placements.dom().contains(n)
            implies t.placements[n].len() > 0 && t.placements[n].no_duplicates() && t.node_handle(
            n,
        ) is Some && t.moves.base.dom().contains(n) && has_children(t, t.moves.base[n])
            && t.parents.dom().contains(n) && t.moves.tree().dom().contains(n) && t.parents[n]
            == node_children_id(t.moves.tree()[n]) by {
            assert(p.placements.dom().contains(n));
            assert(p.node_handle(n) == t.node_handle(n));
            assert(has_children(p, p.moves.base[n]));
        }
        assert forall|q: Placement| #[trigger] t.placement_index.dom().contains(q)
            implies t.placements.dom().contains(t.placement_index[q]) && t.lists.dom().contains(
            q.list,
        ) && t.lists[q.list].places.dom().contains(q.stamp) by {
            assert(p.placement_index.dom().contains(q));
        }
        assert forall|r: Stamp| #[trigger] t.moves.log.dom().contains(r)
            implies t.placements.dom().contains(t.moves.log[r].child) && has_children(
            t,
            t.moves.log[r].parent,
        ) by {
            assert(p.moves.log.dom().contains(r));
            assert(has_children(p, p.moves.log[r].parent));
        }
    }
    assert(shown_right(t)) by {
        reveal(shown_right);
        assert forall|q: Placement| #[trigger] p.is_tombstoned(q) == t.is_tombstoned(q) by {}
        assert forall|q: Placement| #[trigger] has_item(t, q) implies item_right(t, q) by {
            assert(has_item(p, q));
            assert(item_right(p, q));
            if t.placement_index.dom().contains(q) {
                lemma_same_tombs(t, p, t.placements[t.placement_index[q]]);
            }
        }
        assert forall|l: ElementId, s: Stamp|
            t.texts.dom().contains(l) && #[trigger] t.texts[l].items.dom().contains(s)
            implies !t.texts[l].items[s].moved_away by {
            assert(p.texts[l].items.dom().contains(s));
        }
    }
}

/// In every replica that arrivals, edits and transactions lead to, every node is where the
/// moves put it and shows there.
pub proof fn law_lived_replicas_place_nodes_well(c: ClientId, turns: Seq<TurnV>)
    requires
        DocV::empty(c).lives_well(turns),
        authored(DocV::empty(c).heard(turns)),
    ensures
        placed_well(DocV::empty(c).lived(turns).tree),
{
    let d = DocV::empty(c).lived(turns);
    let ops = DocV::empty(c).heard(turns);
    let own = DocV::empty(c).made(turns);
    let pool = bares(ops);
    let (p, l) = lemma_lived(c, ops, turns);
    lemma_stands_seated(c, pool, own, d, p, l);
    lemma_plain_placed(d.tree);
    let rank = lemma_pool_rank(pool);
    let e = DocV::empty(c).ran(l);
    assert(runs_in_turn(c, pool, l)) by {
        reveal(stands);
    }
    lemma_grown(c, pool, l, rank);
    lemma_grown_acyclic(e.tree.plain(), traces(l), rank);
    lemma_run_tells(c, pool, l, rank);
    let t = d.tree;
    assert(t.gist() == e.tree.gist());
    assert(t.moves.base == t.gist().tree.moves.base && e.tree.moves.base
        == e.tree.gist().tree.moves.base);
    assert(t.moves.log == t.gist().log && e.tree.moves.log == e.tree.gist().log);
    assert(t.placements.dom().finite()) by {
        reveal(stands);
        reveal(stands_at);
        let none = Map::<ClientId, u64>::empty();
        assert(t.placements == wet(t, none).placements);
        assert(e.tree.placements == wet(e.tree, none).placements);
    }
    assert(items_told(t)) by {
        reveal(items_told);
        reveal(tells);
        lemma_gist_doms(t);
        assert forall|q: Placement, n: ElementId|
            #![trigger has_item(t, q), names_node(t.lists[q.list].items[q.stamp].value, n)]
            has_item(t, q) implies (names_node(t.lists[q.list].items[q.stamp].value, n) <==> (
        t.placement_index.dom().contains(q) && t.placement_index[q] == n)) by {
            lemma_child_gist(t, q);
            let g = t.gist().tree;
            assert(g.placement_index == t.placement_index);
            assert(names_node(t.lists[q.list].items[q.stamp].value, n) <==> t.child_at(q) == Some(
                n,
            ));
            if g.placement_index.dom().contains(q) {
                assert(held_right(g, q));
                let w = as_written(t.lists[q.list]);
                assert(w.items.dom() =~= t.lists[q.list].items.dom());
            }
            if t.child_at(q) is Some {
                assert(g.child_at(q) is Some);
            }
        }
    }
}

/// Every sequence of a well-formed replica is sound.
pub proof fn law_well_formed_sequences_are_sound(d: Document)
    requires
        d.wf(),
    ensures
        sequences_sound(d@.tree),
{
    let t = d@.tree;
    assert forall|l: ElementId| #[trigger] t.lists.dom().contains(l)
        implies t.lists[l].places.dom().finite() && t.lists[l].items.dom().subset_of(
        t.lists[l].places.dom(),
    ) by {
        assert(d.tree.lists.table@.dom().contains(l));
        let x = d.tree.lists.table@[l];
        assert(x.fit(l));
        lemma_places_finite(&x);
        assert(t.lists[l] == x@);
        assert forall|s: Stamp| #[trigger] x@.items.dom().contains(s)
            implies x@.places.dom().contains(s) by {
            x.lemma_places(s);
        }
    }
}

} // verus!
