//! Concurrent moves converge: whichever of two comes first, every movable node ends up
//! under the same parent, rendered at the same place.

use crate::annot::Placement;
use crate::commute::WriteV;
use crate::converge::{lemma_raised, lemma_record, lemma_wet_move, lemma_wet_refold, raised, wet};
use crate::elementid::ElementId;
use crate::identity::spec_span;
use crate::list::{list_delete, list_insert, list_set_away, ListV};
use crate::list_laws::{law_insert_and_delete_commute, law_inserts_commute};
use crate::op::{OpKindV, OpV};
use crate::stamp::{stamp_lt, Stamp};
use crate::table::{lemma_ordered_exists, ordered};
use crate::tree::{latest_in, TreeV};
use crate::treemove::{replay_moves, MoveEdge};
use crate::xml::node_children_id;
use vstd::prelude::*;

verus! {

// --- states alike ---

/// Whether two sequences are one but for which of their nodes at some places are
/// suppressed.
spec fn lists_alike(a: ListV, b: ListV, l: ElementId, loose: Set<Placement>) -> bool {
    &&& a.id == b.id
    &&& a.places == b.places
    &&& a.displaced == b.displaced
    &&& a.items.dom() == b.items.dom()
    &&& forall|s: Stamp| #[trigger]
        a.items.dom().contains(s) ==> a.items[s].value == b.items[s].value && (loose.contains(
            Placement { list: l, stamp: s },
        ) || a.items[s].moved_away == b.items[s].moved_away)
}

/// Whether two states are one but for the order of placements, which nodes at some places
/// are suppressed, and what some nodes hang off.
pub closed spec fn loosely(
    a: TreeV,
    b: TreeV,
    loose: Set<Placement>,
    nodes: Set<ElementId>,
) -> bool {
    &&& a == (TreeV {
        lists: a.lists,
        parents: a.parents,
        placements: a.placements,
        ..b
    })
    &&& a.placements.dom() == b.placements.dom()
    &&& forall|n: ElementId, p: Placement|
        a.placements.dom().contains(n) ==> (#[trigger] a.placements[n].contains(p)
            <==> b.placements[n].contains(p))
    &&& a.lists.dom() == b.lists.dom()
    &&& forall|l: ElementId| #[trigger]
        a.lists.dom().contains(l) ==> lists_alike(a.lists[l], b.lists[l], l, loose)
    &&& forall|x: ElementId|
        !nodes.contains(x) ==> (#[trigger] a.parents.dom().contains(x) <==> b.parents.dom().contains(
            x,
        )) && (a.parents.dom().contains(x) ==> a.parents[x] == b.parents[x])
}

impl TreeV {
    /// Whether two states are one but for the order in which placements came.
    pub open spec fn alike(self, other: TreeV) -> bool {
        &&& self == (TreeV { placements: self.placements, ..other })
        &&& self.placements.dom() == other.placements.dom()
        &&& forall|n: ElementId| #[trigger]
            self.placements.dom().contains(n) ==> self.placements[n].to_set()
                == other.placements[n].to_set()
    }
}

proof fn lemma_alike(a: TreeV, b: TreeV)
    requires
        loosely(a, b, Set::empty(), Set::empty()),
    ensures
        a.alike(b),
{
    assert forall|l: ElementId| #[trigger] a.lists.dom().contains(l) implies a.lists[l]
        == b.lists[l] by {
        assert(lists_alike(a.lists[l], b.lists[l], l, Set::empty()));
        assert(a.lists[l].items =~= b.lists[l].items);
    }
    assert(a.lists =~= b.lists);
    assert(a.parents =~= b.parents);
    assert forall|n: ElementId| #[trigger] a.placements.dom().contains(n)
        implies a.placements[n].to_set()
        == b.placements[n].to_set() by {
        assert forall|p: Placement| a.placements[n].to_set().contains(p)
            <==> b.placements[n].to_set().contains(p) by {
            assert(a.placements[n].contains(p) <==> b.placements[n].contains(p));
        }
        assert(a.placements[n].to_set() =~= b.placements[n].to_set());
    }
}

proof fn lemma_loosely_trans(
    a: TreeV,
    b: TreeV,
    c: TreeV,
    loose: Set<Placement>,
    nodes: Set<ElementId>,
)
    requires
        loosely(a, b, loose, nodes),
        loosely(b, c, loose, nodes),
    ensures
        loosely(a, c, loose, nodes),
{
    assert forall|l: ElementId| #[trigger] a.lists.dom().contains(l) implies lists_alike(
        a.lists[l],
        c.lists[l],
        l,
        loose,
    ) by {
        assert(lists_alike(a.lists[l], b.lists[l], l, loose));
        assert(b.lists.dom().contains(l));
        assert(lists_alike(b.lists[l], c.lists[l], l, loose));
    }
    assert forall|n: ElementId, p: Placement| a.placements.dom().contains(n) implies (
    #[trigger] a.placements[n].contains(p) <==> c.placements[n].contains(p)) by {
        assert(b.placements[n].contains(p) <==> c.placements[n].contains(p));
    }
    assert forall|x: ElementId| !nodes.contains(x) implies (#[trigger] a.parents.dom().contains(x)
        <==> c.parents.dom().contains(x)) && (a.parents.dom().contains(x) ==> a.parents[x]
        == c.parents[x]) by {
        assert(a.parents.dom().contains(x) <==> b.parents.dom().contains(x));
    }
}

proof fn lemma_loosely_sym(a: TreeV, b: TreeV)
    requires
        loosely(a, b, Set::empty(), Set::empty()),
    ensures
        loosely(b, a, Set::empty(), Set::empty()),
{
    assert forall|l: ElementId| #[trigger] b.lists.dom().contains(l) implies lists_alike(
        b.lists[l],
        a.lists[l],
        l,
        Set::empty(),
    ) by {
        assert(lists_alike(a.lists[l], b.lists[l], l, Set::empty()));
    }
    assert forall|n: ElementId, p: Placement| b.placements.dom().contains(n) implies (
    #[trigger] b.placements[n].contains(p) <==> a.placements[n].contains(p)) by {
        assert(a.placements[n].contains(p) <==> b.placements[n].contains(p));
    }
}

// --- the latest placement ---

/// The latest placement in a sequence is one there that none there is later than.
pub(crate) proof fn lemma_latest(places: Seq<Placement>, list: ElementId)
    ensures
        match latest_in(places, list) {
            Some(s) => places.contains(Placement { list, stamp: s }) && forall|p: Placement| #[trigger]
                places.contains(p) && p.list == list ==> !stamp_lt(s, p.stamp),
            None => forall|p: Placement| #[trigger] places.contains(p) ==> p.list != list,
        },
    decreases places.len(),
{
    if places.len() > 0 {
        let h = places.drop_last();
        let q = places.last();
        lemma_latest(h, list);
        assert(places[places.len() - 1] == q);
        assert forall|p: Placement| #[trigger] places.contains(p) implies h.contains(p) || p == q by {
            let i = places.index_of(p);
            if i < h.len() {
                assert(h[i] == p);
            }
        }
        assert forall|p: Placement| #[trigger] h.contains(p) implies places.contains(p) by {
            let i = h.index_of(p);
            assert(places[i] == p);
        }
        assert(places.contains(q));
    }
}

pub(crate) proof fn lemma_same_latest(a: Seq<Placement>, b: Seq<Placement>, list: ElementId)
    requires
        forall|p: Placement| #[trigger] a.contains(p) <==> b.contains(p),
    ensures
        latest_in(a, list) == latest_in(b, list),
{
    lemma_latest(a, list);
    lemma_latest(b, list);
    if let Some(s) = latest_in(a, list) {
        let p = Placement { list, stamp: s };
        assert(b.contains(p));
        if let Some(r) = latest_in(b, list) {
            let q = Placement { list, stamp: r };
            assert(a.contains(q));
            crate::stamp::law_stamp_order_is_total(s, r, s);
        }
    } else if let Some(r) = latest_in(b, list) {
        assert(a.contains(Placement { list, stamp: r }));
    }
}

// --- suppressing ---

/// Every placement of a node is suppressed but the live one, and nothing else changes.
pub(crate) proof fn lemma_only(t: TreeV, places: Seq<Placement>, list: ElementId, live: Option<Stamp>)
    ensures
        ({
            let u = t.with_only(places, list, live);
            &&& u == (TreeV { lists: u.lists, ..t })
            &&& u.lists.dom() == t.lists.dom()
            &&& forall|l: ElementId| #[trigger]
                t.lists.dom().contains(l) ==> {
                    let a = u.lists[l];
                    let b = t.lists[l];
                    &&& a.id == b.id
                    &&& a.places == b.places
                    &&& a.displaced == b.displaced
                    &&& a.items.dom() == b.items.dom()
                    &&& forall|s: Stamp| #[trigger]
                        b.items.dom().contains(s) ==> a.items[s].value == b.items[s].value
                            && a.items[s].moved_away == (if places.contains(
                            Placement { list: l, stamp: s },
                        ) {
                            !(l == list && live == Some(s))
                        } else {
                            b.items[s].moved_away
                        })
                }
        }),
    decreases places.len(),
{
    let u = t.with_only(places, list, live);
    if places.len() > 0 {
        let h = places.drop_last();
        let p = places.last();
        lemma_only(t, h, list, live);
        let v = t.with_only(h, list, live);
        assert(places[places.len() - 1] == p);
        assert forall|q: Placement| #[trigger] places.contains(q) <==> h.contains(q) || q == p by {
            if h.contains(q) {
                let i = h.index_of(q);
                assert(places[i] == q);
            }
            if places.contains(q) {
                let i = places.index_of(q);
                if i < h.len() {
                    assert(h[i] == q);
                }
            }
        }
        if v.lists.dom().contains(p.list) {
            assert(u.lists.dom() =~= v.lists.dom());
            let away = !(p.list == list && live == Some(p.stamp));
            assert(u.lists[p.list] == list_set_away(v.lists[p.list], p.stamp, away));
            assert(u.lists[p.list].items.dom() =~= v.lists[p.list].items.dom());
        }
        assert(u == (TreeV { lists: u.lists, ..t }));
    }
}

/// What loosely alike states have loose, once a node is settled in both.
spec fn tighter(
    loose: Set<Placement>,
    t: TreeV,
    tree: Map<ElementId, ElementId>,
    n: ElementId,
) -> Set<Placement> {
    if tree.dom().contains(n) {
        Set::new(|p: Placement| loose.contains(p) && !t.placements[n].contains(p))
    } else {
        loose
    }
}

spec fn fewer_nodes(
    nodes: Set<ElementId>,
    tree: Map<ElementId, ElementId>,
    n: ElementId,
) -> Set<ElementId> {
    if tree.dom().contains(n) {
        nodes.remove(n)
    } else {
        nodes
    }
}

/// Settling a node in two states loosely alike settles it the same.
proof fn lemma_settle(
    a: TreeV,
    b: TreeV,
    loose: Set<Placement>,
    nodes: Set<ElementId>,
    tree: Map<ElementId, ElementId>,
    n: ElementId,
)
    requires
        loosely(a, b, loose, nodes),
        a.placements.dom().contains(n),
    ensures
        loosely(
            a.settle(tree, n),
            b.settle(tree, n),
            tighter(loose, b, tree, n),
            fewer_nodes(nodes, tree, n),
        ),
        a.settle(tree, n).placements == a.placements,
        b.settle(tree, n).placements == b.placements,
{
    reveal(TreeV::settle);
    if tree.dom().contains(n) {
        let list = node_children_id(tree[n]);
        let pa = a.placements[n];
        let pb = b.placements[n];
        assert forall|p: Placement| #[trigger] pa.contains(p) <==> pb.contains(p) by {}
        lemma_same_latest(pa, pb, list);
        assert forall|p: Placement| a.is_tombstoned(p) == #[trigger] b.is_tombstoned(p) by {
            if a.lists.dom().contains(p.list) {
                assert(lists_alike(a.lists[p.list], b.lists[p.list], p.list, loose));
            }
        }
        assert(a.any_tombstoned(pa) == b.any_tombstoned(pb)) by {
            if a.any_tombstoned(pa) {
                let i = choose|i: int| 0 <= i < pa.len() && a.is_tombstoned(#[trigger] pa[i]);
                assert(pa.contains(pa[i]));
                assert(pb.contains(pa[i]));
                let j = pb.index_of(pa[i]);
                assert(pb[j] == pa[i]);
                assert(b.is_tombstoned(pa[i]));
            }
            if b.any_tombstoned(pb) {
                let i = choose|i: int| 0 <= i < pb.len() && b.is_tombstoned(#[trigger] pb[i]);
                assert(pb.contains(pb[i]));
                assert(pa.contains(pb[i]));
                let j = pa.index_of(pb[i]);
                assert(pa[j] == pb[i]);
                assert(b.is_tombstoned(pa[j]));
                assert(a.is_tombstoned(pa[j]));
            }
        }
        let live = if a.any_tombstoned(pa) {
            None
        } else {
            latest_in(pa, list)
        };
        lemma_only(a, pa, list, live);
        lemma_only(b, pb, list, live);
        let x = a.settle(tree, n);
        let y = b.settle(tree, n);
        let c = tighter(loose, b, tree, n);
        assert forall|l: ElementId| #[trigger] x.lists.dom().contains(l) implies lists_alike(
            x.lists[l],
            y.lists[l],
            l,
            c,
        ) by {
            assert(a.lists.dom().contains(l));
            assert(lists_alike(a.lists[l], b.lists[l], l, loose));
            assert forall|s: Stamp| #[trigger] x.lists[l].items.dom().contains(s)
                implies x.lists[l].items[s].value
                == y.lists[l].items[s].value && (c.contains(Placement { list: l, stamp: s })
                || x.lists[l].items[s].moved_away == y.lists[l].items[s].moved_away) by {
                assert(a.lists[l].items.dom().contains(s));
                assert(b.lists[l].items.dom().contains(s));
                let p = Placement { list: l, stamp: s };
                assert(pa.contains(p) <==> pb.contains(p));
            }
        }
    }
}

/// The places still loose once some nodes are settled.
spec fn loose_after(
    loose: Set<Placement>,
    t: TreeV,
    tree: Map<ElementId, ElementId>,
    q: Seq<ElementId>,
) -> Set<Placement> {
    Set::new(
        |p: Placement|
            loose.contains(p) && !exists|i: int|
                0 <= i < q.len() && tree.dom().contains(#[trigger] q[i])
                    && t.placements[q[i]].contains(p),
    )
}

spec fn nodes_after(
    nodes: Set<ElementId>,
    tree: Map<ElementId, ElementId>,
    q: Seq<ElementId>,
) -> Set<ElementId> {
    Set::new(|n: ElementId| nodes.contains(n) && !(q.contains(n) && tree.dom().contains(n)))
}

proof fn lemma_settle_all(
    a: TreeV,
    b: TreeV,
    loose: Set<Placement>,
    nodes: Set<ElementId>,
    tree: Map<ElementId, ElementId>,
    q: Seq<ElementId>,
)
    requires
        loosely(a, b, loose, nodes),
        forall|i: int| 0 <= i < q.len() ==> a.placements.dom().contains(#[trigger] q[i]),
    ensures
        loosely(
            a.settle_all(tree, q),
            b.settle_all(tree, q),
            loose_after(loose, b, tree, q),
            nodes_after(nodes, tree, q),
        ),
        a.settle_all(tree, q).placements == a.placements,
        b.settle_all(tree, q).placements == b.placements,
    decreases q.len(),
{
    if q.len() == 0 {
        assert(loose_after(loose, b, tree, q) =~= loose);
        assert(nodes_after(nodes, tree, q) =~= nodes);
    } else {
        let h = q.drop_last();
        let n = q.last();
        assert forall|i: int| 0 <= i < h.len()
            implies a.placements.dom().contains(#[trigger] h[i]) by {
            assert(h[i] == q[i]);
        }
        lemma_settle_all(a, b, loose, nodes, tree, h);
        let x = a.settle_all(tree, h);
        let y = b.settle_all(tree, h);
        let c = loose_after(loose, b, tree, h);
        let m = nodes_after(nodes, tree, h);
        assert(q[q.len() - 1] == n);
        lemma_settle(x, y, c, m, tree, n);
        assert(tighter(c, y, tree, n) =~= loose_after(loose, b, tree, q)) by {
            assert forall|p: Placement| tighter(c, y, tree, n).contains(p) <==> loose_after(
                loose,
                b,
                tree,
                q,
            ).contains(p) by {
                if exists|i: int|
                    0 <= i < q.len() && tree.dom().contains(#[trigger] q[i])
                        && b.placements[q[i]].contains(p) {
                    let i = choose|i: int|
                        0 <= i < q.len() && tree.dom().contains(#[trigger] q[i])
                            && b.placements[q[i]].contains(p);
                    if i < h.len() {
                        assert(h[i] == q[i]);
                    }
                }
                if exists|i: int|
                    0 <= i < h.len() && tree.dom().contains(#[trigger] h[i])
                        && b.placements[h[i]].contains(p) {
                    let i = choose|i: int|
                        0 <= i < h.len() && tree.dom().contains(#[trigger] h[i])
                            && b.placements[h[i]].contains(p);
                    assert(q[i] == h[i]);
                }
            }
        }
        assert(fewer_nodes(m, tree, n) =~= nodes_after(nodes, tree, q)) by {
            assert forall|z: ElementId| q.contains(z) <==> h.contains(z) || z == n by {
                if h.contains(z) {
                    let i = h.index_of(z);
                    assert(q[i] == z);
                }
                if q.contains(z) {
                    let i = q.index_of(z);
                    if i < h.len() {
                        assert(h[i] == z);
                    }
                }
            }
        }
    }
}

impl TreeV {
    /// The places of movable nodes.
    pub open spec fn all_places(self) -> Set<Placement> {
        Set::new(
            |p: Placement|
                exists|n: ElementId|
                    self.placements.dom().contains(n) && #[trigger] self.placements[n].contains(p),
        )
    }

    /// Whether every movable node that is placed, or awaits a placement, has a parent it
    /// was created under.
    pub open spec fn rooted(self) -> bool {
        self.placements.dom().finite() && forall|n: ElementId|
            self.placements.dom().contains(n) || self.revealed.contains(n) ==> #[trigger]
                self.moves.base.dom().contains(n)
    }
}

/// A replay keeps every node it started from.
pub(crate) proof fn lemma_replay_keeps(
    base: Map<ElementId, ElementId>,
    log: Map<Stamp, MoveEdge>,
    stamps: Seq<Stamp>,
)
    ensures
        base.dom().subset_of(replay_moves(base, log, stamps).dom()),
    decreases stamps.len(),
{
    if stamps.len() > 0 {
        lemma_replay_keeps(base, log, stamps.drop_last());
    }
}

/// Settling everything in two states loosely alike makes them alike, where what is loose
/// is of placed nodes.
proof fn lemma_refold(a: TreeV, b: TreeV, loose: Set<Placement>, nodes: Set<ElementId>)
    requires
        loosely(a, b, loose, nodes),
        b.rooted(),
        loose.subset_of(b.all_places()),
        nodes.subset_of(b.placements.dom()),
    ensures
        loosely(a.refold(), b.refold(), Set::empty(), Set::empty()),
        a.refold().placements == a.placements,
        b.refold().placements == b.placements,
{
    reveal(TreeV::refold);
    let tree = b.moves.tree();
    let q = ordered::<ElementId>(b.placements.dom());
    lemma_ordered_exists::<ElementId>(b.placements.dom());
    assert(a.moves == b.moves);
    lemma_replay_keeps(b.moves.base, b.moves.log, crate::order::in_order(b.moves.log.dom()));
    assert forall|i: int| 0 <= i < q.len() implies a.placements.dom().contains(#[trigger] q[i]) by {
        assert(q.to_set().contains(q[i]));
    }
    lemma_settle_all(a, b, loose, nodes, tree, q);
    assert(loose_after(loose, b, tree, q) =~= Set::empty()) by {
        assert forall|p: Placement| !loose_after(loose, b, tree, q).contains(p) by {
            if loose.contains(p) {
                assert(b.all_places().contains(p));
                let n = choose|n: ElementId|
                    b.placements.dom().contains(n) && #[trigger] b.placements[n].contains(p);
                assert(b.moves.base.dom().contains(n));
                assert(q.to_set().contains(n));
                let i = q.index_of(n);
                assert(q[i] == n && tree.dom().contains(q[i]));
            }
        }
    }
    assert(nodes_after(nodes, tree, q) =~= Set::empty()) by {
        assert forall|n: ElementId| !nodes_after(nodes, tree, q).contains(n) by {
            if nodes.contains(n) {
                assert(b.moves.base.dom().contains(n));
                assert(q.to_set().contains(n));
            }
        }
    }
}

/// Settling touches only the places of placed nodes, and what placed nodes hang off.
proof fn lemma_settled_loosely(t: TreeV, tree: Map<ElementId, ElementId>, q: Seq<ElementId>)
    requires
        forall|i: int| 0 <= i < q.len() ==> t.placements.dom().contains(#[trigger] q[i]),
    ensures
        loosely(t.settle_all(tree, q), t, t.all_places(), t.placements.dom()),
        t.settle_all(tree, q).placements == t.placements,
    decreases q.len(),
{
    reveal(TreeV::settle);
    if q.len() > 0 {
        let h = q.drop_last();
        let n = q.last();
        assert forall|i: int| 0 <= i < h.len()
            implies t.placements.dom().contains(#[trigger] h[i]) by {
            assert(h[i] == q[i]);
        }
        lemma_settled_loosely(t, tree, h);
        let u = t.settle_all(tree, h);
        let v = t.settle_all(tree, q);
        assert(q[q.len() - 1] == n);
        if tree.dom().contains(n) {
            let list = node_children_id(tree[n]);
            let places = u.placements[n];
            let live = if u.any_tombstoned(places) {
                None
            } else {
                latest_in(places, list)
            };
            lemma_only(u, places, list, live);
            assert forall|l: ElementId| #[trigger] v.lists.dom().contains(l) implies lists_alike(
                v.lists[l],
                t.lists[l],
                l,
                t.all_places(),
            ) by {
                assert(u.lists.dom().contains(l));
                assert(lists_alike(u.lists[l], t.lists[l], l, t.all_places()));
                assert forall|s: Stamp| #[trigger] v.lists[l].items.dom().contains(s)
                    implies v.lists[l].items[s].value
                    == t.lists[l].items[s].value && (t.all_places().contains(
                    Placement { list: l, stamp: s },
                ) || v.lists[l].items[s].moved_away == t.lists[l].items[s].moved_away) by {
                    assert(u.lists[l].items.dom().contains(s));
                    let p = Placement { list: l, stamp: s };
                    if places.contains(p) {
                        assert(t.placements[n].contains(p));
                    }
                }
            }
        }
    }
}

// --- a move ---

impl TreeV {
    /// Whether a move lands: it goes into a children sequence that is here, of a node that
    /// is here, and to a place that no node holds.
    pub open spec fn takes_move(self, op: OpV) -> bool {
        match op.kind {
            OpKindV::XmlMove { node, .. } => {
                &&& self.lists.dom().contains(op.target)
                &&& self.parents.dom().contains(op.target)
                &&& self.placements.dom().contains(node) || self.revealed.contains(node)
                &&& self.node_handle(node) is Some
                &&& !self.placement_index.dom().contains(
                    Placement { list: op.target, stamp: op.stamp },
                )
                &&& !self.moves.log.dom().contains(op.stamp)
            },
            _ => false,
        }
    }
}

/// The state a move leaves to be settled.
pub open spec fn moved(t: TreeV, op: OpV) -> TreeV {
    let node = op.kind->XmlMove_node;
    let anchor = op.kind->XmlMove_anchor;
    let p = Placement { list: op.target, stamp: op.stamp };
    TreeV {
        placement_index: t.placement_index.insert(p, node),
        lists: t.lists.insert(
            op.target,
            list_insert(t.lists[op.target], op.stamp, t.node_handle(node)->Some_0, anchor),
        ),
        placements: t.with_placement(node, p).placements,
        moves: t.moves.apply(op.stamp, node, t.parents[op.target]),
        revealed: t.revealed.remove(node),
        ..t
    }
}

impl TreeV {
    /// Whether an op lands and settles placements: a move, or the deletion of a movable
    /// node's place.
    pub open spec fn takes_settling(self, op: OpV) -> bool {
        match op.kind {
            OpKindV::XmlMove { .. } => self.takes_move(op),
            OpKindV::ListDelete { id } => self.lists.dom().contains(op.target)
                && self.placement_index.dom().contains(Placement { list: op.target, stamp: id }),
            _ => false,
        }
    }
}

/// The state an op that settles leaves to be settled.
pub open spec fn loosened(t: TreeV, op: OpV) -> TreeV {
    match op.kind {
        OpKindV::ListDelete { id } => t.write(WriteV::ListDrop { list: op.target, id }),
        _ => moved(t, op),
    }
}

proof fn lemma_moved(t: TreeV, op: OpV)
    requires
        t.takes_move(op),
    ensures
        t.move_node(op.target, op.kind->XmlMove_node, op.kind->XmlMove_anchor, op.stamp)
            == moved(t, op).refold(),
{
    reveal(TreeV::move_node);
    reveal(TreeV::with_claim);
    reveal(TreeV::with_seat);
}

/// A node's placements after one more.
pub(crate) proof fn lemma_placed(t: TreeV, node: ElementId, p: Placement)
    ensures
        ({
            let u = t.with_placement(node, p);
            &&& u.placements.dom() == t.placements.dom().insert(node)
            &&& forall|n: ElementId, q: Placement|
                u.placements.dom().contains(n) ==> (#[trigger] u.placements[n].contains(q) <==> (
                t.placements.dom().contains(n) && t.placements[n].contains(q)) || (n == node && q
                    == p))
        }),
{
    let u = t.with_placement(node, p);
    assert(u.placements.dom() =~= t.placements.dom().insert(node));
    assert forall|n: ElementId, q: Placement| u.placements.dom().contains(n) implies (
    #[trigger] u.placements[n].contains(q) <==> (t.placements.dom().contains(n)
        && t.placements[n].contains(q)) || (n == node && q == p)) by {
        if n == node {
            let places = if t.placements.dom().contains(node) {
                t.placements[node]
            } else {
                Seq::empty()
            };
            assert(u.placements[node] == places.push(p));
            if places.contains(q) {
                let i = places.index_of(q);
                assert(places.push(p)[i] == q);
            }
            if q == p {
                assert(places.push(p)[places.len() as int] == q);
            }
            if places.push(p).contains(q) && q != p {
                let i = places.push(p).index_of(q);
                assert(places[i] == q);
            }
        }
    }
}

/// A move keeps states loosely alike, where its sequence is no placed node.
proof fn lemma_moved_loosely(
    a: TreeV,
    b: TreeV,
    loose: Set<Placement>,
    nodes: Set<ElementId>,
    op: OpV,
)
    requires
        loosely(a, b, loose, nodes),
        b.takes_move(op),
        !nodes.contains(op.target),
    ensures
        a.takes_move(op),
        loosely(moved(a, op), moved(b, op), loose, nodes),
{
    let node = op.kind->XmlMove_node;
    let p = Placement { list: op.target, stamp: op.stamp };
    assert(a.parents.dom().contains(op.target) <==> b.parents.dom().contains(op.target));
    assert(a.node_handle(node) == b.node_handle(node));
    let x = moved(a, op);
    let y = moved(b, op);
    lemma_placed(a, node, p);
    lemma_placed(b, node, p);
    assert forall|n: ElementId, q: Placement| x.placements.dom().contains(n) implies (
    #[trigger] x.placements[n].contains(q) <==> y.placements[n].contains(q)) by {
        assert(a.with_placement(node, p).placements[n].contains(q) <==> b.with_placement(
            node,
            p,
        ).placements[n].contains(q)) by {
            if a.placements.dom().contains(n) {
                assert(a.placements[n].contains(q) <==> b.placements[n].contains(q));
            }
        }
    }
    assert forall|l: ElementId| #[trigger] x.lists.dom().contains(l) implies lists_alike(
        x.lists[l],
        y.lists[l],
        l,
        loose,
    ) by {
        assert(a.lists.dom().contains(l));
        assert(lists_alike(a.lists[l], b.lists[l], l, loose));
    }
    assert(x.lists.dom() =~= y.lists.dom());
    assert(x.placements.dom() =~= y.placements.dom());
}

/// Two moves, left to be settled, are one state whichever came first.
proof fn lemma_moved_twice(t: TreeV, a: OpV, b: OpV)
    requires
        t.takes_move(a),
        t.takes_move(b),
        a.stamp != b.stamp,
    ensures
        moved(t, a).takes_move(b),
        loosely(moved(moved(t, a), b), moved(moved(t, b), a), Set::empty(), Set::empty()),
{
    let m = a.kind->XmlMove_node;
    let n = b.kind->XmlMove_node;
    let p = Placement { list: a.target, stamp: a.stamp };
    let q = Placement { list: b.target, stamp: b.stamp };
    let x = moved(moved(t, a), b);
    let y = moved(moved(t, b), a);
    assert(moved(t, a).node_handle(n) == t.node_handle(n));
    assert(moved(t, b).node_handle(m) == t.node_handle(m));
    assert(x.placement_index =~= y.placement_index);
    assert(x.revealed =~= y.revealed);
    assert(x.moves.log =~= y.moves.log);
    if a.target == b.target {
        law_inserts_commute(
            t.lists[a.target],
            a.stamp,
            t.node_handle(m)->Some_0,
            a.kind->XmlMove_anchor,
            b.stamp,
            t.node_handle(n)->Some_0,
            b.kind->XmlMove_anchor,
        );
    }
    assert(x.lists =~= y.lists);
    lemma_placed(t, m, p);
    lemma_placed(t, n, q);
    lemma_placed(moved(t, a), n, q);
    lemma_placed(moved(t, b), m, p);
    assert(x.placements.dom() =~= y.placements.dom());
    assert forall|z: ElementId, r: Placement| x.placements.dom().contains(z) implies (
    #[trigger] x.placements[z].contains(r) <==> y.placements[z].contains(r)) by {
        assert(moved(t, a).with_placement(n, q).placements[z].contains(r) <==> moved(
            t,
            b,
        ).with_placement(m, p).placements[z].contains(r)) by {
            if moved(t, a).placements.dom().contains(z) {
                assert(t.with_placement(m, p).placements[z].contains(r) <==> (
                t.placements.dom().contains(z) && t.placements[z].contains(r)) || (z == m && r
                    == p));
            }
            if moved(t, b).placements.dom().contains(z) {
                assert(t.with_placement(n, q).placements[z].contains(r) <==> (
                t.placements.dom().contains(z) && t.placements[z].contains(r)) || (z == n && r
                    == q));
            }
        }
    }
}

impl TreeV {
    /// Whether an id is that of a movable node that is placed or awaits a placement.
    pub open spec fn movable(self, id: ElementId) -> bool {
        self.placements.dom().contains(id) || self.revealed.contains(id)
    }
}

/// An op that settles keeps states loosely alike, where its sequence is no placed node.
proof fn lemma_loosened_loosely(
    a: TreeV,
    b: TreeV,
    loose: Set<Placement>,
    nodes: Set<ElementId>,
    op: OpV,
)
    requires
        loosely(a, b, loose, nodes),
        b.takes_settling(op),
        !nodes.contains(op.target),
    ensures
        a.takes_settling(op),
        loosely(loosened(a, op), loosened(b, op), loose, nodes),
{
    if op.kind is XmlMove {
        lemma_moved_loosely(a, b, loose, nodes, op);
    } else {
        let id = op.kind->ListDelete_id;
        let x = loosened(a, op);
        let y = loosened(b, op);
        assert(lists_alike(a.lists[op.target], b.lists[op.target], op.target, loose));
        assert forall|l: ElementId| #[trigger] x.lists.dom().contains(l) implies lists_alike(
            x.lists[l],
            y.lists[l],
            l,
            loose,
        ) by {
            assert(a.lists.dom().contains(l));
            assert(lists_alike(a.lists[l], b.lists[l], l, loose));
            if l == op.target {
                assert(x.lists[l] == list_delete(a.lists[l], id));
                assert(y.lists[l] == list_delete(b.lists[l], id));
            }
        }
        assert(x.lists.dom() =~= y.lists.dom());
    }
}

proof fn lemma_loosely_same(t: TreeV)
    ensures
        loosely(t, t, Set::empty(), Set::empty()),
{
}

/// A move and a deletion, left to be settled, are one state whichever came first.
proof fn lemma_moved_and_deleted(t: TreeV, a: OpV, b: OpV)
    requires
        t.takes_move(a),
        t.takes_settling(b),
        b.kind is ListDelete,
    ensures
        moved(t, a).takes_settling(b),
        loosened(t, b).takes_move(a),
        loosened(moved(t, a), b) == moved(loosened(t, b), a),
{
    let id = b.kind->ListDelete_id;
    let m = a.kind->XmlMove_node;
    let x = loosened(moved(t, a), b);
    let y = moved(loosened(t, b), a);
    assert(Placement { list: a.target, stamp: a.stamp } != Placement { list: b.target, stamp: id });
    assert(loosened(t, b).node_handle(m) == t.node_handle(m));
    if a.target == b.target {
        law_insert_and_delete_commute(
            t.lists[a.target],
            a.stamp,
            t.node_handle(m)->Some_0,
            a.kind->XmlMove_anchor,
            id,
        );
    }
    assert(x.lists =~= y.lists);
}

/// Two ops that settle, left to be settled, are one state whichever came first.
proof fn lemma_loosened_twice(t: TreeV, a: OpV, b: OpV)
    requires
        t.takes_settling(a),
        t.takes_settling(b),
        a.stamp != b.stamp,
    ensures
        loosened(t, a).takes_settling(b),
        loosely(
            loosened(loosened(t, a), b),
            loosened(loosened(t, b), a),
            Set::empty(),
            Set::empty(),
        ),
{
    if a.kind is XmlMove && b.kind is XmlMove {
        lemma_moved_twice(t, a, b);
    } else {
        if a.kind is XmlMove {
            lemma_moved_and_deleted(t, a, b);
        } else if b.kind is XmlMove {
            lemma_moved_and_deleted(t, b, a);
        } else {
            let x = loosened(loosened(t, a), b);
            let y = loosened(loosened(t, b), a);
            let i = a.kind->ListDelete_id;
            let j = b.kind->ListDelete_id;
            if a.target == b.target {
                let l = t.lists[a.target];
                assert(list_delete(list_delete(l, i), j).items =~= list_delete(
                    list_delete(l, j),
                    i,
                ).items);
            }
            assert(x.lists =~= y.lists);
        }
        lemma_loosely_same(loosened(loosened(t, a), b));
    }
}

/// An op that settles leaves every movable node rooted, and no fewer places.
proof fn lemma_loosened_rooted(t: TreeV, op: OpV)
    requires
        t.rooted(),
        t.takes_settling(op),
    ensures
        loosened(t, op).rooted(),
        t.all_places().subset_of(loosened(t, op).all_places()),
        t.placements.dom().subset_of(loosened(t, op).placements.dom()),
        forall|n: ElementId| #[trigger]
            loosened(t, op).placements.dom().contains(n) ==> t.movable(n),
{
    let u = loosened(t, op);
    if op.kind is XmlMove {
        let n = op.kind->XmlMove_node;
        let r = Placement { list: op.target, stamp: op.stamp };
        lemma_placed(t, n, r);
        assert forall|z: Placement| t.all_places().contains(z) implies u.all_places().contains(z) by {
            let k = choose|k: ElementId|
                t.placements.dom().contains(k) && #[trigger] t.placements[k].contains(z);
            assert(t.with_placement(n, r).placements[k].contains(z));
            assert(u.placements[k].contains(z));
        }
    } else {
        assert(u.all_places() =~= t.all_places());
    }
}

/// Settling between two ops is made up for by settling after them.
proof fn lemma_settle_between(t: TreeV, a: OpV, b: OpV)
    requires
        t.rooted(),
        t.takes_settling(a),
        t.takes_settling(b),
        a.stamp != b.stamp,
        !t.movable(b.target),
    ensures
        loosened(t, a).refold().takes_settling(b),
        loosely(
            loosened(loosened(t, a).refold(), b).refold(),
            loosened(loosened(t, a), b).refold(),
            Set::empty(),
            Set::empty(),
        ),
{
    reveal(TreeV::refold);
    let s = loosened(t, a);
    lemma_loosened_rooted(t, a);
    let q = ordered::<ElementId>(s.placements.dom());
    lemma_ordered_exists::<ElementId>(s.placements.dom());
    assert forall|i: int| 0 <= i < q.len() implies s.placements.dom().contains(#[trigger] q[i]) by {
        assert(q.to_set().contains(q[i]));
    }
    lemma_settled_loosely(s, s.moves.tree(), q);
    lemma_loosened_twice(t, a, b);
    lemma_loosened_loosely(s.refold(), s, s.all_places(), s.placements.dom(), b);
    let y = loosened(s, b);
    lemma_loosened_rooted(s, b);
    lemma_refold(loosened(s.refold(), b), y, s.all_places(), s.placements.dom());
}

/// Two ops that settle and both land leave states alike.
proof fn lemma_settlings_converge(t: TreeV, a: OpV, b: OpV)
    requires
        t.rooted(),
        t.takes_settling(a),
        t.takes_settling(b),
        a.stamp != b.stamp,
        !t.movable(a.target),
        !t.movable(b.target),
    ensures
        loosened(t, a).refold().takes_settling(b),
        loosened(t, b).refold().takes_settling(a),
        loosened(loosened(t, a).refold(), b).refold().alike(
            loosened(loosened(t, b).refold(), a).refold(),
        ),
{
    lemma_settle_between(t, a, b);
    lemma_settle_between(t, b, a);
    lemma_loosened_twice(t, a, b);
    lemma_loosened_twice(t, b, a);
    let none = Set::<Placement>::empty();
    let nobody = Set::<ElementId>::empty();
    let x = loosened(loosened(t, a), b);
    let y = loosened(loosened(t, b), a);
    lemma_loosened_rooted(t, b);
    lemma_loosened_rooted(loosened(t, b), a);
    lemma_refold(x, y, none, nobody);
    let p = loosened(loosened(t, a).refold(), b).refold();
    let q = loosened(loosened(t, b).refold(), a).refold();
    lemma_loosely_trans(p, x.refold(), y.refold(), none, nobody);
    lemma_loosely_sym(q, y.refold());
    lemma_loosely_trans(p, y.refold(), q, none, nobody);
    lemma_alike(p, q);
}

/// What a move does, with its reservation recorded.
proof fn lemma_move_applied(t: TreeV, op: OpV)
    requires
        op.kind is XmlMove,
    ensures
        t.apply_kind(op.target, op.kind, op.stamp, op.id.client) == wet(
            t.move_node(op.target, op.kind->XmlMove_node, op.kind->XmlMove_anchor, op.stamp),
            raised(t.high_water, op.stamp, spec_span(op.kind)),
        ),
{
    let hw = raised(t.high_water, op.stamp, spec_span(op.kind));
    lemma_record(t, op.stamp, spec_span(op.kind));
    lemma_wet_move(t, hw, op.target, op.kind->XmlMove_node, op.kind->XmlMove_anchor, op.stamp);
}

/// What an op that settles does: the state it loosens, settled, with its reservation
/// recorded.
pub(crate) proof fn lemma_settling_applied(t: TreeV, op: OpV)
    requires
        t.takes_settling(op),
    ensures
        t.apply_kind(op.target, op.kind, op.stamp, op.id.client) == wet(
            loosened(t, op).refold(),
            raised(t.high_water, op.stamp, spec_span(op.kind)),
        ),
{
    let hw = raised(t.high_water, op.stamp, spec_span(op.kind));
    if op.kind is XmlMove {
        lemma_move_applied(t, op);
        lemma_moved(t, op);
    } else {
        reveal(TreeV::list_delete);
        lemma_record(t, op.stamp, spec_span(op.kind));
        lemma_wet_refold(loosened(t, op), hw);
    }
}

/// Concurrent moves, and deletions of where movable nodes stand, converge: two of them that
/// both land leave the same state whichever comes first, but for the order in which a
/// node's placements are kept. So every node ends under one parent, and renders at one
/// place or is gone.
pub proof fn law_concurrent_moves_converge(t: TreeV, a: OpV, b: OpV)
    requires
        t.rooted(),
        t.takes_settling(a),
        t.takes_settling(b),
        a.stamp != b.stamp,
        !t.movable(a.target),
        !t.movable(b.target),
    ensures
        t.apply_kind(a.target, a.kind, a.stamp, a.id.client).apply_kind(
            b.target,
            b.kind,
            b.stamp,
            b.id.client,
        ).alike(
            t.apply_kind(b.target, b.kind, b.stamp, b.id.client).apply_kind(
                a.target,
                a.kind,
                a.stamp,
                a.id.client,
            ),
        ),
{
    lemma_settlings_converge(t, a, b);
    let m = spec_span(a.kind);
    let n = spec_span(b.kind);
    let x = loosened(t, a).refold();
    let y = loosened(t, b).refold();
    let ha = raised(t.high_water, a.stamp, m);
    let hb = raised(t.high_water, b.stamp, n);
    lemma_settling_applied(t, a);
    lemma_settling_applied(t, b);
    lemma_settling_applied(wet(x, ha), b);
    lemma_settling_applied(wet(y, hb), a);
    assert(loosened(wet(x, ha), b) == wet(loosened(x, b), ha));
    assert(loosened(wet(y, hb), a) == wet(loosened(y, a), hb));
    lemma_wet_refold(loosened(x, b), ha);
    lemma_wet_refold(loosened(y, a), hb);
    lemma_raised(t.high_water, a.stamp, m, b.stamp, n);
}

} // verus!
