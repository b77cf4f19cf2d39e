//! States that runs of authored ops lead to: where everything in them comes from, and that
//! everything in them hangs off the root.

use crate::annot::Placement;
use crate::authored::{
    authored_alone, born_in, edits, fits_target, leaves, lemma_other, lemma_pool_born,
    lemma_pool_fit, lemma_pool_link, lemma_pool_op, lemma_pool_pair, lemma_pool_rank,
    lemma_pool_tagged, lemma_runs_prefix, lemma_tracer, only_born, ranked, runs_in_turn, trace_of,
    traced, writes_of, wrote, TraceV,
};
use crate::clientid::ClientId;
use crate::commute::{
    apart, body, born, child_container, created, effect, lemma_effect, lemma_effect_regular,
    lemma_note_written, lemma_same_effect, lemma_writes_concat, lemma_writes_one, lemma_writes_two,
    register_own, regular, run_drops, slot_written, WriteV,
};
use crate::doc::DocV;
use crate::elementid::ElementId;
use crate::gist::{child_of, lemma_gist_refold, place_of};
use crate::identity::{root_element, spec_payload_id, spec_ranged_id, spec_span};
use crate::map::{slot_at, SlotV};
use crate::move_laws::{lemma_replay_keeps, loosened};
use crate::op::{OpKindV, OpV};
use crate::order::in_order;
use crate::ranged::RangedInitV;
use crate::settle_laws::{lemma_plain_loosened, lemma_settling};
use crate::stamp::Stamp;
use crate::tree::{ContainerV, TreeV};
use crate::treemove::{
    acyclic, climbs, law_moves_never_close_a_loop, lemma_added_leaves, lemma_climb_short, link_of,
    move_step, replay_moves, MoveEdge, MovesV,
};
use crate::xml::{node_attrs_id, node_children_id};
use vstd::prelude::*;

verus! {

// --- where everything comes from ---

/// Whether everything named in a state has left its trace.
#[verifier::opaque]
pub(crate) open spec fn known(t: TreeV, k: Set<TraceV>) -> bool {
    &&& t.maps.dom().contains(root_element())
    &&& forall|m: ElementId| #[trigger]
        t.maps.dom().contains(m) ==> t.maps[m].id == m && (m == root_element() || k.contains(
            TraceV::LwwMap(m),
        ))
    &&& forall|m: ElementId, key: Seq<u8>|
        t.maps.dom().contains(m) ==> #[trigger] register_own(m, key, slot_at(t.maps[m].slots, key))
    &&& forall|l: ElementId| #[trigger] t.lists.dom().contains(l) ==> k.contains(TraceV::List(l))
    &&& forall|l: ElementId, s: Stamp|
        t.lists.dom().contains(l) && #[trigger] t.lists[l].places.dom().contains(s) ==> k.contains(
            TraceV::Item(l, s),
        )
    &&& forall|l: ElementId| #[trigger] t.texts.dom().contains(l) ==> k.contains(TraceV::Text(l))
    &&& forall|l: ElementId, s: Stamp|
        t.texts.dom().contains(l) && #[trigger] t.texts[l].places.dom().contains(s) ==> k.contains(
            TraceV::Codepoint(l, s),
        )
    &&& forall|x: ElementId| #[trigger]
        t.xml_elements.dom().contains(x) ==> k.contains(TraceV::XmlElement(x))
    &&& forall|x: ElementId| #[trigger]
        t.xml_fragments.dom().contains(x) ==> k.contains(TraceV::XmlFragment(x))
    &&& forall|x: ElementId| #[trigger] t.ranged.dom().contains(x) ==> k.contains(TraceV::Note(x))
    &&& forall|x: ElementId| #[trigger]
        t.parents.dom().contains(x) ==> k.contains(TraceV::Link(x, t.parents[x])) || born_in(k, x)
    &&& forall|x: ElementId| #[trigger]
        t.moves.base.dom().contains(x) ==> k.contains(TraceV::Link(x, t.moves.base[x])) || born_in(
            k,
            x,
        )
    &&& forall|p: Placement| #[trigger]
        t.placement_index.dom().contains(p) ==> k.contains(TraceV::Item(p.list, p.stamp))
    &&& forall|s: Stamp| #[trigger] t.moves.log.dom().contains(s) ==> k.contains(TraceV::Moved(s))
    &&& forall|n: ElementId| #[trigger] t.placements.dom().contains(n) ==> born_in(k, n)
    &&& t.parents.dom().finite()
    &&& t.moves.base.dom().finite()
    &&& t.moves.log.dom().finite()
    &&& t.placements.dom().finite()
    &&& t.revealed == Set::<ElementId>::empty()
}

/// Whether a write of a node has what it speaks of among some traces.
spec fn told(w: WriteV, n: Set<TraceV>) -> bool {
    &&& trace_of(w) matches Some(tr) ==> n.contains(tr)
    &&& w matches WriteV::Hold { at, .. } ==> n.contains(TraceV::Item(at.list, at.stamp))
    &&& w matches WriteV::Place { node, .. } ==> born_in(n, node)
    &&& w matches WriteV::Base { child, .. } ==> born_in(n, child)
    &&& !(w is Await)
    &&& regular(w)
}

proof fn lemma_born_grows(k: Set<TraceV>, n: Set<TraceV>, x: ElementId)
    requires
        k.subset_of(n),
        born_in(k, x),
    ensures
        born_in(n, x),
{
    let l = choose|l: ElementId| #[trigger] k.contains(TraceV::Born(x, l));
    assert(n.contains(TraceV::Born(x, l)));
}

proof fn lemma_known_grows(t: TreeV, k: Set<TraceV>, n: Set<TraceV>)
    requires
        known(t, k),
        k.subset_of(n),
    ensures
        known(t, n),
{
    reveal(known);
    assert forall|x: ElementId| born_in(k, x) implies born_in(n, x) by {
        lemma_born_grows(k, n, x);
    }
}

#[verifier::spinoff_prover]
proof fn lemma_known_write(t: TreeV, n: Set<TraceV>, w: WriteV)
    requires
        known(t, n),
        told(w, n),
    ensures
        known(t.write(w), n),
{
    reveal(known);
    let u = t.write(w);
    if let WriteV::Slot { map, key: at, value, stamp } = w {
        assert forall|m: ElementId, key: Seq<u8>| u.maps.dom().contains(m)
            implies #[trigger] register_own(m, key, slot_at(u.maps[m].slots, key)) by {
            assert(register_own(m, key, slot_at(t.maps[m].slots, key)));
            if m == map && key == at {
                let s = slot_at(t.maps[m].slots, key);
                assert(slot_at(u.maps[m].slots, key) == Some(slot_written(s, value, stamp)));
            }
        }
    } else {
        assert forall|m: ElementId, key: Seq<u8>| u.maps.dom().contains(m)
            implies #[trigger] register_own(m, key, slot_at(u.maps[m].slots, key)) by {
            if t.maps.dom().contains(m) {
                assert(register_own(m, key, slot_at(t.maps[m].slots, key)));
            } else {
                assert(u.maps[m].slots == Map::<Seq<u8>, SlotV>::empty());
                assert(slot_at(u.maps[m].slots, key) is None);
            }
        }
    }
    if let WriteV::Home { child, parent } = w {
        assert(n.contains(TraceV::Born(child, parent)));
        assert(born_in(n, child));
    }
    assert(u.revealed =~= Set::empty());
}

proof fn lemma_known_writes(t: TreeV, n: Set<TraceV>, ws: Seq<WriteV>)
    requires
        known(t, n),
        forall|i: int| 0 <= i < ws.len() ==> told(#[trigger] ws[i], n),
    ensures
        known(t.writes(ws), n),
    decreases ws.len(),
{
    if ws.len() > 0 {
        let h = ws.drop_last();
        assert forall|i: int| 0 <= i < h.len() implies told(#[trigger] h[i], n) by {
            assert(h[i] == ws[i]);
        }
        lemma_known_writes(t, n, h);
        assert(ws[ws.len() - 1] == ws.last());
        lemma_known_write(t.writes(h), n, ws.last());
    }
}

// --- what hangs off what ---

/// Whether an id is registered.
pub open spec fn registered(t: TreeV, x: ElementId) -> bool {
    t.container_state(x) is Some
}

/// Whether everything in one state hangs off something that is here, where another says
/// what is here and what hangs off what.
#[verifier::opaque]
pub(crate) open spec fn hung_in(
    t: TreeV,
    u: TreeV,
    k: Set<TraceV>,
    rank: spec_fn(ElementId) -> nat,
) -> bool {
    &&& forall|x: ElementId| #[trigger]
        registered(t, x) ==> x == root_element() || t.ranged.dom().contains(x)
            || u.parents.dom().contains(x)
    &&& forall|x: ElementId| #[trigger]
        t.parents.dom().contains(x) ==> registered(u, t.parents[x]) && x != root_element()
    &&& forall|x: ElementId| #[trigger]
        t.parents.dom().contains(x) && !born_in(k, x) ==> t.moves.base.dom().contains(x)
            && t.moves.base[x] == t.parents[x]
    &&& forall|x: ElementId| #[trigger]
        t.moves.base.dom().contains(x) ==> registered(u, t.moves.base[x]) && rank(t.moves.base[x])
            < rank(x)
}

/// Whether a write hangs what it makes.
spec fn hangs(w: WriteV, u: TreeV, k: Set<TraceV>, rank: spec_fn(ElementId) -> nat) -> bool {
    match w {
        WriteV::NewMap { id } => id == root_element() || u.parents.dom().contains(id),
        WriteV::NewList { id } => u.parents.dom().contains(id),
        WriteV::NewText { id } => u.parents.dom().contains(id),
        WriteV::NewElement { id, .. } => u.parents.dom().contains(id),
        WriteV::NewFragment { id } => u.parents.dom().contains(id),
        WriteV::Link { child, parent } => registered(u, parent) && rank(parent) < rank(child)
            && child != root_element() && !born_in(k, child),
        WriteV::Home { child, parent } => registered(u, parent) && child != root_element()
            && born_in(k, child),
        WriteV::Base { child, parent } => registered(u, parent) && rank(parent) < rank(child)
            && born_in(k, child),
        _ => true,
    }
}

proof fn lemma_hung_write(
    t: TreeV,
    u: TreeV,
    k: Set<TraceV>,
    rank: spec_fn(ElementId) -> nat,
    w: WriteV,
)
    requires
        hung_in(t, u, k, rank),
        hangs(w, u, k, rank),
    ensures
        hung_in(t.write(w), u, k, rank),
{
    reveal(hung_in);
    let v = t.write(w);
    assert forall|x: ElementId| #[trigger] registered(v, x) implies x == root_element()
        || v.ranged.dom().contains(x) || u.parents.dom().contains(x) by {
        if registered(t, x) {
        }
    }
}

proof fn lemma_hung_writes(
    t: TreeV,
    u: TreeV,
    k: Set<TraceV>,
    rank: spec_fn(ElementId) -> nat,
    ws: Seq<WriteV>,
)
    requires
        hung_in(t, u, k, rank),
        forall|i: int| 0 <= i < ws.len() ==> hangs(#[trigger] ws[i], u, k, rank),
    ensures
        hung_in(t.writes(ws), u, k, rank),
    decreases ws.len(),
{
    if ws.len() > 0 {
        let h = ws.drop_last();
        assert forall|i: int| 0 <= i < h.len() implies hangs(#[trigger] h[i], u, k, rank) by {
            assert(h[i] == ws[i]);
        }
        lemma_hung_writes(t, u, k, rank, h);
        assert(ws[ws.len() - 1] == ws.last());
        lemma_hung_write(t.writes(h), u, k, rank, ws.last());
    }
}

/// Whether one state registers and hangs at least what the other does.
#[verifier::opaque]
pub(crate) open spec fn holds_more(t: TreeV, u: TreeV) -> bool {
    &&& forall|x: ElementId| #[trigger] registered(t, x) ==> registered(u, x)
    &&& t.parents.dom().subset_of(u.parents.dom())
    &&& t.maps.dom().subset_of(u.maps.dom())
    &&& t.lists.dom().subset_of(u.lists.dom())
    &&& t.texts.dom().subset_of(u.texts.dom())
    &&& t.xml_elements.dom().subset_of(u.xml_elements.dom())
    &&& t.xml_fragments.dom().subset_of(u.xml_fragments.dom())
    &&& t.ranged.dom().subset_of(u.ranged.dom())
    &&& t.acl.dom().subset_of(u.acl.dom())
    &&& t.moves.base.dom().subset_of(u.moves.base.dom())
    &&& t.placements.dom().subset_of(u.placements.dom())
    &&& forall|l: ElementId| #[trigger]
        t.lists.dom().contains(l) ==> t.lists[l].places.dom().subset_of(u.lists[l].places.dom())
    &&& forall|l: ElementId| #[trigger]
        t.texts.dom().contains(l) ==> t.texts[l].places.dom().subset_of(u.texts[l].places.dom())
}

pub(crate) proof fn lemma_more_self(t: TreeV)
    ensures
        holds_more(t, t),
{
    reveal(holds_more);
}

proof fn lemma_more_write(t: TreeV, u: TreeV, w: WriteV)
    requires
        holds_more(t, u),
    ensures
        holds_more(t, u.write(w)),
{
    reveal(holds_more);
    let v = u.write(w);
    assert forall|x: ElementId| #[trigger] registered(t, x) implies registered(v, x) by {
        assert(registered(u, x));
    }
    if let WriteV::Place { node, .. } = w {
        assert(v.placements.dom() =~= u.placements.dom().insert(node));
    }
}

pub(crate) proof fn lemma_more_writes(t: TreeV, u: TreeV, ws: Seq<WriteV>)
    requires
        holds_more(t, u),
    ensures
        holds_more(t, u.writes(ws)),
    decreases ws.len(),
{
    if ws.len() > 0 {
        lemma_more_writes(t, u, ws.drop_last());
        lemma_more_write(t, u.writes(ws.drop_last()), ws.last());
    }
}

proof fn lemma_hung_grows(
    t: TreeV,
    u: TreeV,
    v: TreeV,
    k: Set<TraceV>,
    n: Set<TraceV>,
    rank: spec_fn(ElementId) -> nat,
)
    requires
        hung_in(t, u, k, rank),
        holds_more(u, v),
        k.subset_of(n),
    ensures
        hung_in(t, v, n, rank),
{
    reveal(hung_in);
    reveal(holds_more);
    assert forall|x: ElementId| born_in(k, x) implies born_in(n, x) by {
        lemma_born_grows(k, n, x);
    }
}

// --- where placed nodes stand ---

/// Whether an element or fragment has its children sequence.
pub open spec fn has_children(t: TreeV, x: ElementId) -> bool {
    let l = node_children_id(x);
    t.lists.dom().contains(l) && t.parents.dom().contains(l) && t.parents[l] == x
        && !t.placements.dom().contains(l) && t.moves.base.dom().contains(l) && t.moves.base[l] == x
}

/// Whether every placed node is where the moves put it.
#[verifier::opaque]
pub open spec fn seated(t: TreeV) -> bool {
    &&& forall|n: ElementId, p: Placement|
        t.placements.dom().contains(n) ==> (#[trigger] t.placements[n].contains(p) <==> (
        t.placement_index.dom().contains(p) && t.placement_index[p] == n))
    &&& forall|n: ElementId| #[trigger]
        t.placements.dom().contains(n) ==> t.placements[n].len() > 0
            && t.placements[n].no_duplicates()
    &&& forall|p: Placement| #[trigger]
        t.placement_index.dom().contains(p) ==> t.placements.dom().contains(t.placement_index[p])
            && t.lists.dom().contains(p.list) && t.lists[p.list].places.dom().contains(p.stamp)
    &&& forall|n: ElementId| #[trigger]
        t.placements.dom().contains(n) ==> t.node_handle(n) is Some && t.moves.base.dom().contains(
            n,
        ) && has_children(t, t.moves.base[n])
    &&& forall|n: ElementId| #[trigger]
        t.placements.dom().contains(n) ==> t.parents.dom().contains(n)
            && t.moves.tree().dom().contains(n) && t.parents[n] == node_children_id(
            t.moves.tree()[n],
        )
    &&& forall|s: Stamp| #[trigger]
        t.moves.log.dom().contains(s) ==> t.placements.dom().contains(t.moves.log[s].child)
            && has_children(t, t.moves.log[s].parent)
}

/// What a replay leaves a node under is what it was created under, or what a move put it
/// under.
pub(crate) proof fn lemma_replayed(
    base: Map<ElementId, ElementId>,
    log: Map<Stamp, MoveEdge>,
    q: Seq<Stamp>,
    n: ElementId,
)
    requires
        replay_moves(base, log, q).dom().contains(n),
    ensures
        (base.dom().contains(n) && replay_moves(base, log, q)[n] == base[n]) || exists|i: int|
            0 <= i < q.len() && log[#[trigger] q[i]].child == n && replay_moves(base, log, q)[n]
                == log[q[i]].parent,
    decreases q.len(),
{
    if q.len() > 0 {
        let h = q.drop_last();
        let before = replay_moves(base, log, h);
        let e = log[q.last()];
        let after = replay_moves(base, log, q);
        assert(after == move_step(before, e));
        if after != before && n == e.child {
            assert(q[q.len() - 1] == q.last());
            assert(log[q[q.len() - 1]].child == n);
        } else {
            lemma_replayed(base, log, h, n);
            if !(base.dom().contains(n) && before[n] == base[n]) {
                let i = choose|i: int|
                    0 <= i < h.len() && log[#[trigger] h[i]].child == n && before[n]
                        == log[h[i]].parent;
                assert(q[i] == h[i]);
            }
        }
    }
}

/// Every effective parent of a placed node has its children sequence.
proof fn lemma_effective(t: TreeV, n: ElementId)
    requires
        seated(t),
        t.moves.log.dom().finite(),
        t.placements.dom().contains(n),
    ensures
        t.moves.tree().dom().contains(n),
        has_children(t, t.moves.tree()[n]),
{
    reveal(seated);
    let q = in_order(t.moves.log.dom());
    crate::order::lemma_in_order(t.moves.log.dom());
    lemma_replay_keeps(t.moves.base, t.moves.log, q);
    lemma_replayed(t.moves.base, t.moves.log, q, n);
    if !(t.moves.tree()[n] == t.moves.base[n]) {
        let i = choose|i: int|
            0 <= i < q.len() && t.moves.log[#[trigger] q[i]].child == n && t.moves.tree()[n]
                == t.moves.log[q[i]].parent;
        assert(q.to_set().contains(q[i]));
        assert(t.moves.log.dom().contains(q[i]));
    }
}

/// A node that never moved is under what it was created under.
proof fn lemma_unmoved(t: TreeV, n: ElementId)
    requires
        t.moves.base.dom().contains(n),
        t.moves.log.dom().finite(),
        forall|s: Stamp| #[trigger] t.moves.log.dom().contains(s) ==> t.moves.log[s].child != n,
    ensures
        t.moves.tree().dom().contains(n),
        t.moves.tree()[n] == t.moves.base[n],
{
    let q = in_order(t.moves.log.dom());
    crate::order::lemma_in_order(t.moves.log.dom());
    lemma_replay_keeps(t.moves.base, t.moves.log, q);
    lemma_replayed(t.moves.base, t.moves.log, q, n);
    if t.moves.tree()[n] != t.moves.base[n] {
        let i = choose|i: int|
            0 <= i < q.len() && t.moves.log[#[trigger] q[i]].child == n && t.moves.tree()[n]
                == t.moves.log[q[i]].parent;
        assert(q.to_set().contains(q[i]));
    }
}

// --- everything leads to the root ---

/// How far up a tree a node is, within some steps.
spec fn height(tree: Map<ElementId, ElementId>, x: ElementId, fuel: nat) -> nat
    decreases fuel,
{
    if fuel == 0 || !tree.dom().contains(x) {
        0
    } else {
        1 + height(tree, tree[x], (fuel - 1) as nat)
    }
}

proof fn lemma_height(tree: Map<ElementId, ElementId>, x: ElementId, fuel: nat) -> (top: ElementId)
    ensures
        climbs(tree, x, top, height(tree, x, fuel)),
        height(tree, x, fuel) < fuel ==> !tree.dom().contains(top),
        height(tree, x, fuel) <= fuel,
    decreases fuel,
{
    if fuel == 0 || !tree.dom().contains(x) {
        x
    } else {
        lemma_height(tree, tree[x], (fuel - 1) as nat)
    }
}

/// More steps lead no higher than the top.
proof fn lemma_height_more(tree: Map<ElementId, ElementId>, x: ElementId, m: nat, n: nat)
    requires
        height(tree, x, m) < m,
        m <= n,
    ensures
        height(tree, x, n) == height(tree, x, m),
    decreases m,
{
    if tree.dom().contains(x) {
        lemma_height_more(tree, tree[x], (m - 1) as nat, (n - 1) as nat);
    }
}

/// Without loops what a node is under is less far from the top.
proof fn lemma_height_falls(tree: Map<ElementId, ElementId>, x: ElementId)
    requires
        tree.dom().finite(),
        acyclic(tree),
        tree.dom().contains(x),
    ensures
        height(tree, x, tree.dom().len() + 1) == 1 + height(
            tree,
            tree[x],
            tree.dom().len() + 1,
        ),
{
    let n = tree.dom().len() + 1;
    let y = tree[x];
    let a = lemma_height(tree, x, n);
    lemma_climb_short(tree, x, a, height(tree, x, n), Set::empty());
    assert(height(tree, y, (n - 1) as nat) < n - 1);
    lemma_height_more(tree, y, (n - 1) as nat, n);
}

/// How far from the root a container of a state is, steps through sequences included.
spec fn depth(t: TreeV, x: ElementId) -> nat {
    let tree = t.moves.tree();
    2 * height(tree, x, tree.dom().len() + 1) + if t.placements.dom().contains(x) {
        1nat
    } else {
        0
    }
}

/// What is linked and no further from the root.
spec fn nearer(t: TreeV, n: nat) -> Set<ElementId> {
    t.parents.dom().filter(|y: ElementId| depth(t, y) <= n)
}

/// Whether links lead ever nearer to the root, and only what is linked is not there yet.
spec fn descends(t: TreeV) -> bool {
    &&& t.parents.dom().finite()
    &&& forall|x: ElementId| #[trigger]
        t.parents.dom().contains(x) ==> depth(t, t.parents[x]) < depth(t, x) && registered(
            t,
            t.parents[x],
        )
    &&& forall|x: ElementId| #[trigger]
        registered(t, x) ==> x == root_element() || t.ranged.dom().contains(x)
            || t.parents.dom().contains(x)
}

proof fn lemma_leads(t: TreeV, x: ElementId)
    requires
        descends(t),
        registered(t, x),
    ensures
        t.leads_to_root(x, false, nearer(t, depth(t, x)).len() + 2),
    decreases depth(t, x),
{
    let n = nearer(t, depth(t, x)).len();
    if x != root_element() {
        if t.parents.dom().contains(x) {
            let p = t.parents[x];
            lemma_leads(t, p);
            let a = nearer(t, depth(t, p));
            let b = nearer(t, depth(t, x));
            vstd::set_lib::lemma_len_subset(b, t.parents.dom());
            assert(a.subset_of(b.remove(x)));
            assert(b.contains(x));
            vstd::set_lib::lemma_len_subset(a, b.remove(x));
            lemma_leads_more(t, p, a.len() + 2, (n + 1) as nat);
            assert(t.holder(x) == Some(p));
        } else {
            assert(t.ranged.dom().contains(x));
            assert(t.holder(x) == Some(root_element()));
            assert(t.leads_to_root(root_element(), false, (n + 1) as nat));
        }
    }
}

proof fn lemma_leads_more(t: TreeV, x: ElementId, m: nat, n: nat)
    requires
        t.leads_to_root(x, false, m),
        m <= n,
    ensures
        t.leads_to_root(x, false, n),
    decreases m,
{
    if x != root_element() {
        lemma_leads_more(t, t.holder(x)->Some_0, (m - 1) as nat, (n - 1) as nat);
    }
}

// --- what grows keeps its shape ---

/// Whether a state is one that ops with some traces lead to.
pub(crate) open spec fn grown(t: TreeV, k: Set<TraceV>, rank: spec_fn(ElementId) -> nat) -> bool {
    &&& known(t, k)
    &&& hung_in(t, t, k, rank)
    &&& seated(t)
    &&& forall|x: ElementId| #[trigger] born_in(k, x) ==> t.placements.dom().contains(x)
}

proof fn lemma_ranked_climb(
    base: Map<ElementId, ElementId>,
    rank: spec_fn(ElementId) -> nat,
    x: ElementId,
    y: ElementId,
    k: nat,
)
    requires
        forall|z: ElementId| #[trigger] base.dom().contains(z) ==> rank(base[z]) < rank(z),
        climbs(base, x, y, k),
    ensures
        k > 0 ==> rank(y) < rank(x),
    decreases k,
{
    if k > 0 {
        lemma_ranked_climb(base, rank, base[x], y, (k - 1) as nat);
    }
}

/// Where nodes were created makes no loop, and neither do the moves.
pub(crate) proof fn lemma_grown_acyclic(t: TreeV, k: Set<TraceV>, rank: spec_fn(ElementId) -> nat)
    requires
        grown(t, k, rank),
    ensures
        acyclic(t.moves.base),
        acyclic(t.moves.tree()),
        t.moves.tree().dom().finite(),
        t.moves.base.dom().finite(),
        t.moves.log.dom().finite(),
        t.placements.dom().finite(),
        t.parents.dom().finite(),
{
    reveal(known);
    reveal(hung_in);
    assert forall|x: ElementId, j: nat| j > 0 implies !#[trigger] climbs(t.moves.base, x, x, j) by {
        if climbs(t.moves.base, x, x, j) {
            lemma_ranked_climb(t.moves.base, rank, x, x, j);
        }
    }
    law_moves_never_close_a_loop(t.moves);
    crate::treemove::lemma_tree_finite(
        t.moves.base,
        t.moves.log,
        in_order(t.moves.log.dom()),
    );
}

proof fn lemma_descends(t: TreeV, k: Set<TraceV>, rank: spec_fn(ElementId) -> nat)
    requires
        grown(t, k, rank),
    ensures
        descends(t),
{
    lemma_grown_acyclic(t, k, rank);
    reveal(hung_in);
    let tree = t.moves.tree();
    assert forall|x: ElementId| #[trigger] t.parents.dom().contains(x) implies depth(
        t,
        t.parents[x],
    ) < depth(t, x) && registered(t, t.parents[x]) by {
        assert(forall|s: Stamp| #[trigger]
            t.moves.log.dom().contains(s) ==> t.placements.dom().contains(t.moves.log[s].child))
            by {
            reveal(seated);
        }
        if t.placements.dom().contains(x) {
            lemma_effective(t, x);
            assert(t.parents[x] == node_children_id(tree[x])) by {
                reveal(seated);
            }
            let l = t.parents[x];
            lemma_unmoved(t, l);
            lemma_height_falls(tree, x);
            lemma_height_falls(tree, l);
        } else {
            assert(!born_in(k, x));
            lemma_unmoved(t, x);
            lemma_height_falls(tree, x);
        }
    }
}

/// Everything registered in a grown state leads to the root.
pub(crate) proof fn lemma_materialised(
    t: TreeV,
    k: Set<TraceV>,
    rank: spec_fn(ElementId) -> nat,
    x: ElementId,
)
    requires
        grown(t, k, rank),
    ensures
        t.materialised(x) == (registered(t, x) || x == root_element()),
{
    lemma_descends(t, k, rank);
    if registered(t, x) {
        lemma_leads(t, x);
        let a = nearer(t, depth(t, x));
        vstd::set_lib::lemma_len_subset(a, t.parents.dom());
        lemma_leads_more(t, x, a.len() + 2, t.parents.dom().len() + 2);
    }
}

/// Links of a grown state end.
pub(crate) proof fn lemma_grown_ends(t: TreeV, k: Set<TraceV>, rank: spec_fn(ElementId) -> nat)
    requires
        grown(t, k, rank),
    ensures
        crate::rebuild::links_end(t.parents),
{
    lemma_descends(t, k, rank);
    assert forall|x: ElementId| #[trigger] t.parents.dom().contains(
        x,
    ) implies crate::rebuild::ends_within(t.parents, x, t.parents.dom().len() + 1) by {
        lemma_ends(t, x);
        let a = nearer(t, depth(t, x));
        vstd::set_lib::lemma_len_subset(a, t.parents.dom());
        lemma_ends_more(t.parents, x, a.len() + 1, t.parents.dom().len() + 1);
    }
}

proof fn lemma_ends(t: TreeV, x: ElementId)
    requires
        descends(t),
    ensures
        crate::rebuild::ends_within(t.parents, x, nearer(t, depth(t, x)).len() + 1),
    decreases depth(t, x),
{
    if x != root_element() && t.parents.dom().contains(x) {
        let p = t.parents[x];
        lemma_ends(t, p);
        let a = nearer(t, depth(t, p));
        let b = nearer(t, depth(t, x));
        vstd::set_lib::lemma_len_subset(b, t.parents.dom());
        assert(a.subset_of(b.remove(x)));
        assert(b.contains(x));
        vstd::set_lib::lemma_len_subset(a, b.remove(x));
        lemma_ends_more(t.parents, p, a.len() + 1, b.len());
    }
}

proof fn lemma_ends_more(links: Map<ElementId, ElementId>, id: ElementId, m: nat, n: nat)
    requires
        crate::rebuild::ends_within(links, id, m),
        m <= n,
    ensures
        crate::rebuild::ends_within(links, id, n),
    decreases m,
{
    if id != root_element() && links.dom().contains(id) {
        lemma_ends_more(links, links[id], (m - 1) as nat, (n - 1) as nat);
    }
}

/// Whether a write leaves what hangs off what as a state has it.
spec fn keeps(t: TreeV, w: WriteV) -> bool {
    match w {
        WriteV::Link { child, parent } => (t.parents.dom().contains(child) ==> t.parents[child]
            == parent) && (t.moves.base.dom().contains(child) ==> t.moves.base[child] == parent),
        WriteV::Home { child, parent } => t.parents.dom().contains(child) ==> t.parents[child]
            == parent,
        WriteV::Base { child, parent } => t.moves.base.dom().contains(child)
            ==> t.moves.base[child] == parent,
        _ => true,
    }
}

/// Whether links and bases of one state are those of another.
#[verifier::opaque]
pub(crate) open spec fn same_links(t: TreeV, u: TreeV) -> bool {
    &&& t.moves.log == u.moves.log
    &&& forall|x: ElementId| #[trigger]
        t.parents.dom().contains(x) ==> u.parents.dom().contains(x) && u.parents[x] == t.parents[x]
    &&& forall|x: ElementId| #[trigger]
        t.moves.base.dom().contains(x) ==> u.moves.base.dom().contains(x) && u.moves.base[x]
            == t.moves.base[x]
}

proof fn lemma_same_links(t: TreeV, u: TreeV, ws: Seq<WriteV>)
    requires
        same_links(t, u),
        forall|i: int| 0 <= i < ws.len() ==> keeps(t, #[trigger] ws[i]),
    ensures
        same_links(t, u.writes(ws)),
    decreases ws.len(),
{
    reveal(same_links);
    if ws.len() > 0 {
        let h = ws.drop_last();
        assert forall|i: int| 0 <= i < h.len() implies keeps(t, #[trigger] h[i]) by {
            assert(h[i] == ws[i]);
        }
        lemma_same_links(t, u, h);
        assert(ws[ws.len() - 1] == ws.last());
        assert(keeps(t, ws.last()));
    }
}

/// Whether a write says what an id hangs off or was created under.
spec fn roots(w: WriteV, x: ElementId) -> bool {
    match w {
        WriteV::Link { child, .. } => child == x,
        WriteV::Base { child, .. } => child == x,
        _ => false,
    }
}

/// What is created is told by a write.
proof fn lemma_new_base(t: TreeV, ws: Seq<WriteV>, x: ElementId)
    requires
        t.writes(ws).moves.base.dom().contains(x),
        !t.moves.base.dom().contains(x),
    ensures
        exists|i: int| 0 <= i < ws.len() && roots(#[trigger] ws[i], x),
    decreases ws.len(),
{
    if ws.len() > 0 {
        let h = ws.drop_last();
        if t.writes(h).moves.base.dom().contains(x) {
            lemma_new_base(t, h, x);
            let i = choose|i: int| 0 <= i < h.len() && roots(#[trigger] h[i], x);
            assert(ws[i] == h[i]);
        } else {
            assert(roots(ws[ws.len() - 1], x));
        }
    }
}

/// What was not registered and hangs off nothing is no one's parent.
proof fn lemma_unhung(t: TreeV, k: Set<TraceV>, rank: spec_fn(ElementId) -> nat, x: ElementId)
    requires
        grown(t, k, rank),
        !registered(t, x),
        !t.moves.base.dom().contains(x),
        !t.placements.dom().contains(x),
    ensures
        t.moves.unhung(x),
{
    reveal(hung_in);
    reveal(seated);
}

/// Placed nodes stay where they are when more is made.
proof fn lemma_seated_more(
    t: TreeV,
    u: TreeV,
    k: Set<TraceV>,
    rank: spec_fn(ElementId) -> nat,
)
    requires
        grown(t, k, rank),
        same_links(t, u),
        holds_more(t, u),
        u.moves.base.dom().finite(),
        u.placements.dom().finite(),
        forall|x: ElementId| #[trigger]
            u.moves.base.dom().contains(x) && !t.moves.base.dom().contains(x) ==> t.moves.unhung(x),
        forall|x: ElementId| #[trigger]
            t.lists.dom().contains(x) && t.parents.dom().contains(x) && !t.placements.dom().contains(
                x,
            ) ==> !u.placements.dom().contains(x),
    ensures
        forall|n: ElementId| #[trigger]
            t.placements.dom().contains(n) ==> u.node_handle(n) is Some
                && u.moves.base.dom().contains(n) && has_children(u, u.moves.base[n])
                && u.parents.dom().contains(n) && u.moves.tree().dom().contains(n) && u.parents[n]
                == node_children_id(u.moves.tree()[n]),
        forall|s: Stamp| #[trigger]
            u.moves.log.dom().contains(s) ==> u.placements.dom().contains(u.moves.log[s].child)
                && has_children(u, u.moves.log[s].parent),
        forall|x: ElementId| #[trigger]
            u.moves.base.dom().contains(x) && !t.moves.base.dom().contains(x)
                ==> u.moves.tree().dom().contains(x) && u.moves.tree()[x] == u.moves.base[x],
{
    lemma_grown_acyclic(t, k, rank);
    reveal(seated);
    reveal(same_links);
    reveal(holds_more);
    assert(t.moves.base.submap_of(u.moves.base)) by {
        assert forall|x: ElementId| #[trigger] t.moves.base.dom().contains(x)
            implies u.moves.base.dom().contains(x) && u.moves.base[x] == t.moves.base[x] by {}
    }
    lemma_added_leaves(t.moves, u.moves.base);
    assert((MovesV { base: u.moves.base, ..t.moves }) == u.moves);
    assert forall|x: ElementId| has_children(t, x) implies #[trigger] has_children(u, x) by {
        let l = node_children_id(x);
        assert(t.lists.dom().contains(l) && t.parents.dom().contains(l));
    }
}

// --- what an op makes hangs off something ---

/// Whether what a write makes or links is there.
spec fn made(w: WriteV, u: TreeV) -> bool {
    match w {
        WriteV::NewMap { id } => u.maps.dom().contains(id),
        WriteV::NewList { id } => u.lists.dom().contains(id),
        WriteV::NewText { id } => u.texts.dom().contains(id),
        WriteV::NewElement { id, .. } => u.xml_elements.dom().contains(id),
        WriteV::NewFragment { id } => u.xml_fragments.dom().contains(id),
        WriteV::Note { id, .. } => u.ranged.dom().contains(id),
        WriteV::Link { child, .. } => u.parents.dom().contains(child),
        WriteV::Home { child, .. } => u.parents.dom().contains(child),
        _ => true,
    }
}

proof fn lemma_made(t: TreeV, ws: Seq<WriteV>, i: int)
    requires
        0 <= i < ws.len(),
    ensures
        made(ws[i], t.writes(ws)),
    decreases ws.len(),
{
    if i < ws.len() - 1 {
        lemma_made(t, ws.drop_last(), i);
    }
}

/// Whether what a write makes hangs off something, and what it links to is here.
spec fn upheld(w: WriteV, u: TreeV) -> bool {
    match w {
        WriteV::NewMap { id } => u.parents.dom().contains(id),
        WriteV::NewList { id } => u.parents.dom().contains(id),
        WriteV::NewText { id } => u.parents.dom().contains(id),
        WriteV::NewElement { id, .. } => u.parents.dom().contains(id),
        WriteV::NewFragment { id } => u.parents.dom().contains(id),
        WriteV::Link { parent, .. } => registered(u, parent),
        WriteV::Home { parent, .. } => registered(u, parent),
        WriteV::Base { parent, .. } => registered(u, parent),
        _ => true,
    }
}

proof fn lemma_born_upheld(t: TreeV, ws: Seq<WriteV>, at: int, id: ElementId, c: ContainerV)
    requires
        0 <= at,
        at + born(id, c).len() <= ws.len(),
        forall|i: int| 0 <= i < born(id, c).len() ==> ws[at + i] == #[trigger] born(id, c)[i],
        t.writes(ws).parents.dom().contains(id),
    ensures
        registered(t.writes(ws), id),
        forall|i: int| 0 <= i < born(id, c).len() ==> upheld(#[trigger] born(id, c)[i], t.writes(ws)),
{
    let b = born(id, c);
    assert(ws[at + 0] == b[0]);
    lemma_made(t, ws, at);
    match c {
        ContainerV::XmlElement(_) => {
            assert(ws[at + 3] == b[3]);
            assert(ws[at + 4] == b[4]);
            lemma_made(t, ws, at + 3);
            lemma_made(t, ws, at + 4);
        },
        ContainerV::XmlFragment => {
            assert(ws[at + 2] == b[2]);
            lemma_made(t, ws, at + 2);
        },
        _ => {},
    }
}

proof fn lemma_created_upheld(t: TreeV, op: OpV, key: Seq<u8>, c: ContainerV, i: int)
    requires
        t.maps.dom().contains(op.target),
        effect(op, None) == seq![WriteV::Raise { stamp: op.stamp, span: spec_span(op.kind) }]
            + created(op.target, key, op.stamp, c),
        0 <= i < effect(op, None).len(),
    ensures
        upheld(effect(op, None)[i], t.writes(effect(op, None))),
{
    let ws = effect(op, None);
    let child = c.child_id(op.target, key);
    let b = born(child, c);
    assert(ws[ws.len() - 1] == (WriteV::Link { child, parent: op.target }));
    lemma_made(t, ws, ws.len() - 1);
    assert forall|j: int| 0 <= j < b.len() implies ws[1 + j] == #[trigger] b[j] by {}
    lemma_born_upheld(t, ws, 1, child, c);
    lemma_more_self(t);
    lemma_more_writes(t, t, ws);
    assert(registered(t, op.target));
    assert(registered(t.writes(ws), op.target)) by {
        reveal(holds_more);
    }
    if 1 <= i <= b.len() {
        assert(ws[i] == b[i - 1]);
        assert(upheld(b[i - 1], t.writes(ws)));
    }
}

/// What an op that bears and moves no node makes hangs off something.
proof fn lemma_edit_upheld(t: TreeV, op: OpV, i: int)
    requires
        t.takes(op),
        !(op.kind is XmlInsertChild),
        !(op.kind is XmlReveal),
        0 <= i < effect(op, None).len(),
    ensures
        upheld(effect(op, None)[i], t.writes(effect(op, None))),
{
    let ws = effect(op, None);
    let u = t.writes(ws);
    match op.kind {
        OpKindV::MapCreate { key } => {
            lemma_created_upheld(t, op, key, ContainerV::LwwMap, i);
        },
        OpKindV::ListCreate { key } => {
            lemma_created_upheld(t, op, key, ContainerV::List, i);
        },
        OpKindV::TextCreate { key } => {
            lemma_created_upheld(t, op, key, ContainerV::Text, i);
        },
        OpKindV::XmlElementCreate { key, tag } => {
            lemma_created_upheld(t, op, key, ContainerV::XmlElement(tag), i);
        },
        OpKindV::XmlFragmentCreate { key } => {
            lemma_created_upheld(t, op, key, ContainerV::XmlFragment, i);
        },
        OpKindV::RangedCreate { start, end, payload, name } => {
            if let RangedInitV::Composite(kind) = payload {
                let id = spec_ranged_id(op.stamp);
                let pid = spec_payload_id(id, kind);
                if let Some(c) = TreeV::payload_container(kind) {
                    let b = born(pid, c);
                    assert forall|j: int| 0 <= j < b.len() implies ws[1 + j]
                        == #[trigger] b[j] by {}
                    let n: int = ws.len() as int;
                    assert(ws[n - 2] == (WriteV::Link { child: pid, parent: id }));
                    assert(ws[n - 1] is Note && ws[n - 1]->Note_id == id);
                    lemma_made(t, ws, n - 2);
                    lemma_made(t, ws, n - 1);
                    lemma_born_upheld(t, ws, 1, pid, c);
                    if 1 <= i <= b.len() {
                        assert(ws[i] == b[i - 1]);
                        assert(upheld(b[i - 1], u));
                    }
                }
            }
        },
        OpKindV::TextDelete { ids } => {
            if i > 0 {
                assert(ws[i] == run_drops(op.target, ids)[i - 1]);
            }
        },
        _ => {},
    }
}

/// What bearing a child makes hangs off something.
proof fn lemma_bear_upheld(t: TreeV, op: OpV, owner: Option<ElementId>, i: int)
    requires
        op.kind is XmlInsertChild,
        t.lists.dom().contains(op.target),
        owner matches Some(o) ==> registered(t, o),
        0 <= i < effect(op, owner).len(),
    ensures
        upheld(effect(op, owner)[i], t.writes(effect(op, owner))),
{
    let ws = effect(op, owner);
    let u = t.writes(ws);
    let c = child_container(op.kind->XmlInsertChild_tag);
    let child = child_of(op);
    let b = born(child, c);
    let n: int = b.len() as int;
    assert(ws[n + 1] == (WriteV::Home { child, parent: op.target }));
    lemma_made(t, ws, n + 1);
    assert forall|j: int| 0 <= j < b.len() implies ws[1 + j] == #[trigger] b[j] by {}
    lemma_born_upheld(t, ws, 1, child, c);
    lemma_more_self(t);
    lemma_more_writes(t, t, ws);
    assert(registered(t, op.target));
    reveal(holds_more);
    assert(registered(u, op.target));
    if let Some(o) = owner {
        assert(registered(u, o));
    }
    if 1 <= i <= n {
        assert(ws[i] == b[i - 1]);
        assert(upheld(b[i - 1], u));
    }
}

// --- runs ---

pub(crate) open spec fn traces(q: Seq<OpV>) -> Set<TraceV> {
    Set::new(|tr: TraceV| traced(q, tr))
}

/// Traces stay as a run goes on.
pub(crate) proof fn lemma_traces_push(q: Seq<OpV>, op: OpV)
    ensures
        traces(q).subset_of(traces(q.push(op))),
        forall|tr: TraceV| #[trigger]
            traces(q.push(op)).contains(tr) <==> traces(q).contains(tr) || leaves(op, tr),
{
    let n = q.push(op);
    assert forall|tr: TraceV| #[trigger] traces(n).contains(tr) <==> traces(q).contains(tr)
        || leaves(op, tr) by {
        if traced(q, tr) {
            let i = choose|i: int| 0 <= i < q.len() && leaves(#[trigger] q[i], tr);
            assert(n[i] == q[i]);
        }
        if leaves(op, tr) {
            assert(n[q.len() as int] == op);
        }
        if traced(n, tr) && !leaves(op, tr) {
            let i = choose|i: int| 0 <= i < n.len() && leaves(#[trigger] n[i], tr);
            assert(q[i] == n[i]);
        }
    }
}

/// What a link that an op writes is of: nothing born, nothing annotated, and, where it is
/// linked already, linked alike.
proof fn lemma_link_fits(
    c: ClientId,
    pool: Set<OpV>,
    q: Seq<OpV>,
    a: OpV,
    i: int,
    t: TreeV,
    rank: spec_fn(ElementId) -> nat,
)
    requires
        authored_alone(pool),
        ranked(pool, rank),
        runs_in_turn(c, pool, q),
        pool.contains(a),
        !q.contains(a),
        grown(t, traces(q), rank),
        0 <= i < writes_of(a).len(),
        writes_of(a)[i] is Link,
    ensures
        ({
            let x = writes_of(a)[i]->Link_child;
            let p = writes_of(a)[i]->Link_parent;
            &&& x != root_element()
            &&& rank(p) < rank(x)
            &&& !born_in(traces(q), x)
            &&& !born_in(traces(q.push(a)), x)
            &&& !t.placements.dom().contains(x)
            &&& t.parents.dom().contains(x) ==> t.parents[x] == p
            &&& t.moves.base.dom().contains(x) ==> t.moves.base[x] == p
            &&& !t.moves.base.dom().contains(x) ==> t.moves.unhung(x)
        }),
{
    let v = writes_of(a)[i];
    let x = v->Link_child;
    let p = v->Link_parent;
    let tr = TraceV::Link(x, p);
    assert(trace_of(v) == Some(tr));
    assert(wrote(a, tr));
    assert(leaves(a, tr));
    lemma_pool_link(pool, a, a, x, p);
    assert(rank(p) < rank(x));
    let k = traces(q);
    lemma_traces_push(q, a);
    if born_in(traces(q.push(a)), x) {
        let l = choose|l: ElementId| #[trigger] traces(q.push(a)).contains(TraceV::Born(x, l));
        if leaves(a, TraceV::Born(x, l)) {
            lemma_pool_born(pool, a, a, x, l);
        } else {
            assert(k.contains(TraceV::Born(x, l)));
            let b = lemma_tracer(c, pool, q, TraceV::Born(x, l));
            lemma_pool_born(pool, b, a, x, l);
        }
        assert(only_born(a, x));
    }
    if born_in(k, x) {
        lemma_born_grows(k, traces(q.push(a)), x);
    }
    assert(!t.placements.dom().contains(x)) by {
        reveal(known);
    }
    if t.parents.dom().contains(x) {
        assert(k.contains(TraceV::Link(x, t.parents[x]))) by {
            reveal(known);
        }
        let w = lemma_other(c, pool, q, a, i, TraceV::Link(x, t.parents[x]));
        lemma_link_alike(v, w, t.parents[x]);
    }
    if t.moves.base.dom().contains(x) {
        assert(k.contains(TraceV::Link(x, t.moves.base[x]))) by {
            reveal(known);
        }
        let w = lemma_other(c, pool, q, a, i, TraceV::Link(x, t.moves.base[x]));
        lemma_link_alike(v, w, t.moves.base[x]);
    } else {
        assert(!registered(t, x)) by {
            if registered(t, x) {
                if t.ranged.dom().contains(x) {
                    assert(k.contains(TraceV::Note(x))) by {
                        reveal(known);
                    }
                    let b = lemma_tracer(c, pool, q, TraceV::Note(x));
                    lemma_pool_link(pool, a, b, x, p);
                } else {
                    reveal(hung_in);
                    assert(t.parents.dom().contains(x));
                }
            }
        }
        lemma_unhung(t, k, rank, x);
    }
}

proof fn lemma_link_alike(v: WriteV, w: WriteV, parent: ElementId)
    requires
        v is Link,
        trace_of(w) == Some(TraceV::Link(v->Link_child, parent)),
        apart(v, w) || crate::authored::crossed(v, w),
    ensures
        parent == v->Link_parent,
{
}

/// What an edit that bears and moves no node writes.
pub(crate) proof fn lemma_edit_writes(op: OpV, i: int)
    requires
        !(op.kind is XmlInsertChild),
        !(op.kind is XmlMove),
        !(op.kind is XmlReveal),
        0 <= i < effect(op, None).len(),
    ensures
        regular(effect(op, None)[i]),
        !(effect(op, None)[i] is Home),
        !(effect(op, None)[i] is Base),
        !(effect(op, None)[i] is Place),
        !(effect(op, None)[i] is Hold),
        !(effect(op, None)[i] is Await),
        !(effect(op, None)[i] is Placed),
        i > 0 ==> !(effect(op, None)[i] is Raise),
        effect(op, None)[i] matches WriteV::ListDrop { list, id } ==> list == op.target && op.kind
            == (OpKindV::ListDelete { id }),
        effect(op, None)[i] matches WriteV::TextDrop { text, id } ==> text == op.target && (
        op.kind matches OpKindV::TextDelete { ids } && ids.contains(id)),
{
    lemma_effect_regular(op, None, i);
    let ws = body(op.target, op.kind, op.stamp, op.id.client, None);
    if i > 0 {
        let j = i - 1;
        assert(effect(op, None)[i] == ws[j]);
        match op.kind {
            OpKindV::RangedCreate { payload, .. } => {
                if let RangedInitV::Composite(kind) = payload {
                    let id = spec_payload_id(spec_ranged_id(op.stamp), kind);
                    if let Some(c) = TreeV::payload_container(kind) {
                        if j < born(id, c).len() {
                            assert(ws[j] == born(id, c)[j]);
                        }
                    }
                }
            },
            OpKindV::TextDelete { ids } => {
                assert(ws[j] == run_drops(op.target, ids)[j]);
                assert(ids.contains(ids[j]));
            },
            _ => {},
        }
    }
}

proof fn lemma_places_kept(t: TreeV, ws: Seq<WriteV>)
    requires
        forall|i: int|
            0 <= i < ws.len() ==> !(#[trigger] ws[i] is Place) && !(ws[i] is Hold),
    ensures
        t.writes(ws).placements == t.placements,
        t.writes(ws).placement_index == t.placement_index,
    decreases ws.len(),
{
    if ws.len() > 0 {
        let h = ws.drop_last();
        assert forall|i: int| 0 <= i < h.len() implies !(#[trigger] h[i] is Place) && !(
        h[i] is Hold) by {
            assert(h[i] == ws[i]);
        }
        lemma_places_kept(t, h);
        assert(ws[ws.len() - 1] == ws.last());
    }
}

/// A state grown stays so when an edit lands.
pub(crate) proof fn lemma_grow_edit(
    c: ClientId,
    pool: Set<OpV>,
    q: Seq<OpV>,
    a: OpV,
    p: TreeV,
    rank: spec_fn(ElementId) -> nat,
)
    requires
        authored_alone(pool),
        ranked(pool, rank),
        runs_in_turn(c, pool, q),
        pool.contains(a),
        !q.contains(a),
        grown(p, traces(q), rank),
        p.takes(a),
        !(a.kind is XmlInsertChild),
    ensures
        grown(p.writes(effect(a, None)), traces(q.push(a)), rank),
        holds_more(p, p.writes(effect(a, None))),
        same_links(p, p.writes(effect(a, None))),
{
    lemma_pool_op(pool, a);
    let k = traces(q);
    let n = traces(q.push(a));
    let ws = effect(a, None);
    let u = p.writes(ws);
    lemma_traces_push(q, a);
    assert(ws == writes_of(a)) by {
        reveal(writes_of);
    }
    lemma_known_grows(p, k, n);
    assert forall|i: int| 0 <= i < ws.len() implies told(#[trigger] ws[i], n) && hangs(
        ws[i],
        u,
        n,
        rank,
    ) && keeps(p, ws[i]) && !(ws[i] is Place) && !(ws[i] is Hold) by {
        lemma_edit_writes(a, i);
        lemma_edit_upheld(p, a, i);
        if let Some(tr) = trace_of(ws[i]) {
            assert(wrote(a, tr));
            assert(leaves(a, tr));
        }
        if ws[i] is Link {
            lemma_link_fits(c, pool, q, a, i, p, rank);
        }
    }
    lemma_known_writes(p, n, ws);
    lemma_more_self(p);
    lemma_more_writes(p, p, ws);
    lemma_hung_grows(p, p, u, k, n, rank);
    lemma_hung_writes(p, u, n, rank, ws);
    lemma_places_kept(p, ws);
    assert(same_links(p, p)) by {
        reveal(same_links);
    }
    lemma_same_links(p, p, ws);
    assert forall|x: ElementId| #[trigger] u.moves.base.dom().contains(x)
        && !p.moves.base.dom().contains(x) implies p.moves.unhung(x) by {
        lemma_new_base(p, ws, x);
        let i = choose|i: int| 0 <= i < ws.len() && roots(#[trigger] ws[i], x);
        lemma_edit_writes(a, i);
        lemma_link_fits(c, pool, q, a, i, p, rank);
    }
    assert(u.moves.base.dom().finite() && u.placements.dom().finite()) by {
        reveal(known);
    }
    lemma_seated_more(p, u, k, rank);
    assert(seated(u)) by {
        reveal(seated);
        reveal(holds_more);
        assert forall|x: Placement| #[trigger] u.placement_index.dom().contains(
            x,
        ) implies u.placements.dom().contains(u.placement_index[x]) && u.lists.dom().contains(
            x.list,
        ) && u.lists[x.list].places.dom().contains(x.stamp) by {
            assert(p.placement_index.dom().contains(x));
            assert(p.lists.dom().contains(x.list));
        }
    }
    assert forall|x: ElementId| #[trigger] born_in(n, x) implies u.placements.dom().contains(x) by {
        let l = choose|l: ElementId| #[trigger] n.contains(TraceV::Born(x, l));
        if leaves(a, TraceV::Born(x, l)) {
            let j = choose|j: int|
                0 <= j < writes_of(a).len() && trace_of(#[trigger] writes_of(a)[j]) == Some(
                    TraceV::Born(x, l),
                );
            lemma_edit_writes(a, j);
        } else {
            assert(k.contains(TraceV::Born(x, l)));
            assert(born_in(k, x));
        }
    }
}

/// Whether what hangs off what in one state does in another, but for placed nodes.
pub(crate) open spec fn steady(t: TreeV, u: TreeV) -> bool {
    forall|x: ElementId| #[trigger]
        t.parents.dom().contains(x) && !t.placements.dom().contains(x)
            ==> u.parents.dom().contains(x) && u.parents[x] == t.parents[x]
}

proof fn lemma_links_steady(t: TreeV, u: TreeV)
    requires
        same_links(t, u),
    ensures
        steady(t, u),
{
    reveal(same_links);
}

// --- bearing a child ---

/// What a children sequence that an op goes into hangs off.
pub(crate) proof fn lemma_children_target(
    c: ClientId,
    pool: Set<OpV>,
    q: Seq<OpV>,
    a: OpV,
    p: TreeV,
    rank: spec_fn(ElementId) -> nat,
)
    requires
        authored_alone(pool),
        ranked(pool, rank),
        runs_in_turn(c, pool, q),
        pool.contains(a),
        grown(p, traces(q), rank),
        edits(a.kind) is Children,
        p.lists.dom().contains(a.target),
    ensures
        p.parents.dom().contains(a.target),
        !p.placements.dom().contains(a.target),
        !born_in(traces(q), a.target),
        a.target == node_children_id(p.parents[a.target]),
        has_children(p, p.parents[a.target]),
        rank(p.parents[a.target]) < rank(a.target),
        registered(p, p.parents[a.target]),
{
    let k = traces(q);
    let l = a.target;
    lemma_pool_op(pool, a);
    assert(k.contains(TraceV::List(l))) by {
        reveal(known);
    }
    let d = lemma_tracer(c, pool, q, TraceV::List(l));
    assert(!born_in(k, l)) by {
        if born_in(k, l) {
            let m = choose|m: ElementId| #[trigger] k.contains(TraceV::Born(l, m));
            let b = lemma_tracer(c, pool, q, TraceV::Born(l, m));
            lemma_pool_born(pool, b, d, l, m);
        }
    }
    assert(!p.placements.dom().contains(l)) by {
        reveal(known);
    }
    assert(registered(p, l));
    assert(!p.ranged.dom().contains(l)) by {
        if p.ranged.dom().contains(l) {
            assert(k.contains(TraceV::Note(l))) by {
                reveal(known);
            }
            let b = lemma_tracer(c, pool, q, TraceV::Note(l));
            lemma_pool_fit(pool, a, b, TraceV::Note(l));
        }
    }
    assert(p.parents.dom().contains(l)) by {
        reveal(hung_in);
    }
    let o = p.parents[l];
    assert(k.contains(TraceV::Link(l, o))) by {
        reveal(known);
    }
    let b = lemma_tracer(c, pool, q, TraceV::Link(l, o));
    lemma_pool_fit(pool, a, b, TraceV::Link(l, o));
    assert(leaves(b, TraceV::Link(l, o)));
    reveal(hung_in);
}

/// A child that an op bears is new.
pub(crate) proof fn lemma_child_new(
    c: ClientId,
    pool: Set<OpV>,
    q: Seq<OpV>,
    a: OpV,
    p: TreeV,
    rank: spec_fn(ElementId) -> nat,
)
    requires
        authored_alone(pool),
        ranked(pool, rank),
        runs_in_turn(c, pool, q),
        pool.contains(a),
        !q.contains(a),
        grown(p, traces(q), rank),
        a.kind is XmlInsertChild,
    ensures
        leaves(a, TraceV::Born(child_of(a), a.target)),
        child_of(a) != root_element(),
        !born_in(traces(q), child_of(a)),
        !p.placements.dom().contains(child_of(a)),
        !p.parents.dom().contains(child_of(a)),
        !p.moves.base.dom().contains(child_of(a)),
        !registered(p, child_of(a)),
        p.moves.unhung(child_of(a)),
        rank(a.target) < rank(child_of(a)),
        a.kind->XmlInsertChild_tag is Some ==> !p.placements.dom().contains(
            node_attrs_id(child_of(a)),
        ) && !p.placements.dom().contains(node_children_id(child_of(a))) && node_attrs_id(
            child_of(a),
        ) != child_of(a) && node_children_id(child_of(a)) != child_of(a),
{
    let k = traces(q);
    let x = child_of(a);
    let cc = child_container(a.kind->XmlInsertChild_tag);
    let ws = writes_of(a);
    let n: int = born(x, cc).len() as int;
    assert(ws[n + 1] == (WriteV::Home { child: x, parent: a.target })) by {
        reveal(writes_of);
    }
    let tr = TraceV::Born(x, a.target);
    assert(trace_of(ws[n + 1]) == Some(tr));
    assert(wrote(a, tr)) by {
        reveal(writes_of);
    }
    assert(leaves(a, tr));
    lemma_pool_born(pool, a, a, x, a.target);
    if born_in(k, x) {
        let l = choose|l: ElementId| #[trigger] k.contains(TraceV::Born(x, l));
        let b = lemma_tracer(c, pool, q, TraceV::Born(x, l));
        lemma_pool_born(pool, a, b, x, a.target);
    }
    assert forall|p: ElementId| !#[trigger] k.contains(TraceV::Link(x, p)) by {
        if k.contains(TraceV::Link(x, p)) {
            let b = lemma_tracer(c, pool, q, TraceV::Link(x, p));
            lemma_pool_born(pool, a, b, x, a.target);
        }
    }
    assert(!k.contains(TraceV::Note(x))) by {
        if k.contains(TraceV::Note(x)) {
            let b = lemma_tracer(c, pool, q, TraceV::Note(x));
            lemma_pool_born(pool, a, b, x, a.target);
        }
    }
    assert(!p.placements.dom().contains(x) && !p.parents.dom().contains(x)
        && !p.moves.base.dom().contains(x) && !p.ranged.dom().contains(x)) by {
        reveal(known);
    }
    assert(!registered(p, x)) by {
        reveal(hung_in);
    }
    lemma_unhung(p, k, rank, x);
    if cc is XmlElement {
        assert(ws[4] == (WriteV::Link { child: node_attrs_id(x), parent: x }) && ws[5] == (
        WriteV::Link { child: node_children_id(x), parent: x }) && ws.len() > 5) by {
            reveal(writes_of);
        }
        lemma_link_fits(c, pool, q, a, 4, p, rank);
        lemma_link_fits(c, pool, q, a, 5, p, rank);
    }
}

/// A child borne, step by step.
proof fn lemma_bear_split(p: TreeV, op: OpV, owner: ElementId)
    requires
        op.kind is XmlInsertChild,
    ensures
        ({
            let cc = child_container(op.kind->XmlInsertChild_tag);
            let child = child_of(op);
            let at = place_of(op);
            let raise = WriteV::Raise { stamp: op.stamp, span: spec_span(op.kind) };
            let p1 = p.writes(seq![raise] + born(child, cc));
            p.writes(effect(op, Some(owner))) == p1.write(
                WriteV::Home { child, parent: op.target },
            ).write(WriteV::Hold { at, node: child }).write(
                WriteV::ListPut {
                    list: op.target,
                    id: op.stamp,
                    value: cc.handle(child),
                    anchor: op.kind->XmlInsertChild_anchor,
                },
            ).write(WriteV::Place { node: child, at }).write(WriteV::Placed { node: child }).write(
                WriteV::Base { child, parent: owner },
            )
        }),
{
    let cc = child_container(op.kind->XmlInsertChild_tag);
    let child = child_of(op);
    let at = place_of(op);
    let raise = WriteV::Raise { stamp: op.stamp, span: spec_span(op.kind) };
    let b = seq![raise] + born(child, cc);
    let home = WriteV::Home { child, parent: op.target };
    let hold = WriteV::Hold { at, node: child };
    let put = WriteV::ListPut {
        list: op.target,
        id: op.stamp,
        value: cc.handle(child),
        anchor: op.kind->XmlInsertChild_anchor,
    };
    let place = WriteV::Place { node: child, at };
    let placed = WriteV::Placed { node: child };
    let base = WriteV::Base { child, parent: owner };
    let two = seq![home, hold];
    let four = seq![put, place];
    let six = seq![placed, base];
    assert(effect(op, Some(owner)) =~= b + (two + (four + six)));
    lemma_writes_concat(p, b, two + (four + six));
    let p1 = p.writes(b);
    lemma_writes_concat(p1, two, four + six);
    lemma_writes_two(p1, home, hold);
    let p2 = p1.write(home).write(hold);
    lemma_writes_concat(p2, four, six);
    lemma_writes_two(p2, put, place);
    lemma_writes_two(p2.write(put).write(place), placed, base);
}

/// Where a borne child leaves the places.
proof fn lemma_bear_places(p: TreeV, op: OpV, owner: ElementId)
    requires
        op.kind is XmlInsertChild,
        p.lists.dom().contains(op.target),
        !p.placements.dom().contains(child_of(op)),
    ensures
        ({
            let u = p.writes(effect(op, Some(owner)));
            let at = place_of(op);
            &&& u.placements == p.placements.insert(child_of(op), seq![at])
            &&& u.placement_index == p.placement_index.insert(at, child_of(op))
            &&& u.lists.dom().contains(op.target)
            &&& u.lists[op.target].places.dom().contains(op.stamp)
            &&& u.parents.dom().contains(child_of(op))
            &&& u.parents[child_of(op)] == op.target
            &&& u.moves.base.dom().contains(child_of(op))
            &&& u.moves.base[child_of(op)] == owner
            &&& u.node_handle(child_of(op)) is Some
        }),
{
    let cc = child_container(op.kind->XmlInsertChild_tag);
    let child = child_of(op);
    let raise = WriteV::Raise { stamp: op.stamp, span: spec_span(op.kind) };
    let b = seq![raise] + born(child, cc);
    let p1 = p.writes(b);
    assert forall|i: int| 0 <= i < b.len() implies !(#[trigger] b[i] is Place) && !(
    b[i] is Hold) by {
        if i > 0 {
            assert(b[i] == born(child, cc)[i - 1]);
        }
    }
    lemma_places_kept(p, b);
    lemma_more_self(p);
    lemma_more_writes(p, p, b);
    lemma_bear_split(p, op, owner);
    let u = p.writes(effect(op, Some(owner)));
    assert(p1.lists.dom().contains(op.target)) by {
        reveal(holds_more);
    }
    assert(b[1] == born(child, cc)[0]);
    lemma_made(p, b, 1);
    assert(u.placements =~= p.placements.insert(child, seq![place_of(op)])) by {
        assert(Seq::<Placement>::empty().push(place_of(op)) =~= seq![place_of(op)]);
    }
    assert(u.placement_index =~= p.placement_index.insert(place_of(op), child));
}

/// A state grown stays so when a child is borne.
pub(crate) proof fn lemma_grow_bear(
    c: ClientId,
    pool: Set<OpV>,
    q: Seq<OpV>,
    a: OpV,
    p: TreeV,
    rank: spec_fn(ElementId) -> nat,
)
    requires
        authored_alone(pool),
        ranked(pool, rank),
        runs_in_turn(c, pool, q),
        pool.contains(a),
        !q.contains(a),
        grown(p, traces(q), rank),
        p.takes(a),
        a.kind is XmlInsertChild,
    ensures
        grown(p.writes(effect(a, p.owner_of(a))), traces(q.push(a)), rank),
        holds_more(p, p.writes(effect(a, p.owner_of(a)))),
        same_links(p, p.writes(effect(a, p.owner_of(a)))),
{
    let k = traces(q);
    let n = traces(q.push(a));
    let x = child_of(a);
    let at = place_of(a);
    lemma_children_target(c, pool, q, a, p, rank);
    lemma_child_new(c, pool, q, a, p, rank);
    let o = p.parents[a.target];
    let owner = p.owner_of(a);
    assert(owner == Some(o));
    let ws = effect(a, owner);
    let u = p.writes(ws);
    let st = writes_of(a);
    assert(st == effect(a, None) && ws =~= st.push(WriteV::Base { child: x, parent: o })) by {
        reveal(writes_of);
    }
    lemma_traces_push(q, a);
    lemma_known_grows(p, k, n);
    assert(n.contains(TraceV::Born(x, a.target)));
    assert(born_in(n, x));
    let cc = child_container(a.kind->XmlInsertChild_tag);
    let nb: int = born(x, cc).len() as int;
    assert(n.contains(TraceV::Item(a.target, a.stamp))) by {
        assert(st[nb + 3] is ListPut && st[nb + 3]->ListPut_list == a.target
            && st[nb + 3]->ListPut_id == a.stamp);
        assert(trace_of(st[nb + 3]) == Some(TraceV::Item(a.target, a.stamp)));
        assert(wrote(a, TraceV::Item(a.target, a.stamp)));
    }
    assert forall|i: int| 0 <= i < ws.len() implies told(#[trigger] ws[i], n) && hangs(
        ws[i],
        u,
        n,
        rank,
    ) && keeps(p, ws[i]) by {
        lemma_bear_upheld(p, a, owner, i);
        lemma_effect_regular(a, owner, i);
        if i < st.len() {
            assert(ws[i] == st[i]);
            if let Some(tr) = trace_of(st[i]) {
                assert(wrote(a, tr));
                assert(leaves(a, tr));
                assert(n.contains(tr));
            }
            if 1 <= i <= nb {
                assert(st[i] == born(x, cc)[i - 1]);
            }
            if st[i] is Link {
                lemma_link_fits(c, pool, q, a, i, p, rank);
            }
        }
    }
    lemma_known_writes(p, n, ws);
    lemma_more_self(p);
    lemma_more_writes(p, p, ws);
    lemma_hung_grows(p, p, u, k, n, rank);
    lemma_hung_writes(p, u, n, rank, ws);
    assert(same_links(p, p)) by {
        reveal(same_links);
    }
    lemma_same_links(p, p, ws);
    lemma_bear_places(p, a, o);
    assert forall|y: ElementId| #[trigger] u.moves.base.dom().contains(y)
        && !p.moves.base.dom().contains(y) implies p.moves.unhung(y) by {
        lemma_new_base(p, ws, y);
        let i = choose|i: int| 0 <= i < ws.len() && roots(#[trigger] ws[i], y);
        if i < st.len() {
            assert(ws[i] == st[i]);
            if 1 <= i <= nb {
                assert(st[i] == born(x, cc)[i - 1]);
            }
            lemma_link_fits(c, pool, q, a, i, p, rank);
        }
    }
    assert(u.moves.base.dom().finite() && u.placements.dom().finite()) by {
        reveal(known);
    }
    assert forall|y: ElementId| #[trigger] p.lists.dom().contains(y) && p.parents.dom().contains(y)
        && !p.placements.dom().contains(y) implies !u.placements.dom().contains(y) by {}
    lemma_seated_more(p, u, k, rank);
    assert(has_children(u, o)) by {
        reveal(same_links);
        reveal(holds_more);
    }
    assert(seated(u)) by {
        lemma_seated_born(p, u, a, o);
    }
    assert forall|y: ElementId| #[trigger] born_in(n, y) implies u.placements.dom().contains(y) by {
        let l = choose|l: ElementId| #[trigger] n.contains(TraceV::Born(y, l));
        if leaves(a, TraceV::Born(y, l)) {
            let j = choose|j: int|
                0 <= j < writes_of(a).len() && trace_of(#[trigger] writes_of(a)[j]) == Some(
                    TraceV::Born(y, l),
                );
            if 1 <= j <= nb {
                assert(st[j] == born(x, cc)[j - 1]);
            }
        } else {
            assert(k.contains(TraceV::Born(y, l)));
            assert(born_in(k, y));
        }
    }
}

/// With one child more, every placed node is where the moves put it.
proof fn lemma_seated_born(p: TreeV, u: TreeV, a: OpV, o: ElementId)
    requires
        seated(p),
        holds_more(p, u),
        !p.placements.dom().contains(child_of(a)),
        !p.placement_index.dom().contains(place_of(a)),
        u.placements == p.placements.insert(child_of(a), seq![place_of(a)]),
        u.placement_index == p.placement_index.insert(place_of(a), child_of(a)),
        u.lists.dom().contains(a.target),
        u.lists[a.target].places.dom().contains(a.stamp),
        u.parents.dom().contains(child_of(a)),
        u.parents[child_of(a)] == a.target,
        u.moves.base.dom().contains(child_of(a)),
        u.moves.base[child_of(a)] == o,
        u.node_handle(child_of(a)) is Some,
        has_children(u, o),
        a.target == node_children_id(o),
        u.moves.tree().dom().contains(child_of(a)),
        u.moves.tree()[child_of(a)] == o,
        forall|n: ElementId| #[trigger]
            p.placements.dom().contains(n) ==> u.node_handle(n) is Some
                && u.moves.base.dom().contains(n) && has_children(u, u.moves.base[n])
                && u.parents.dom().contains(n) && u.moves.tree().dom().contains(n) && u.parents[n]
                == node_children_id(u.moves.tree()[n]),
        forall|s: Stamp| #[trigger]
            u.moves.log.dom().contains(s) ==> u.placements.dom().contains(u.moves.log[s].child)
                && has_children(u, u.moves.log[s].parent),
    ensures
        seated(u),
{
    reveal(seated);
    let x = child_of(a);
    let at = place_of(a);
    assert forall|n: ElementId, r: Placement| u.placements.dom().contains(n) implies (
    #[trigger] u.placements[n].contains(r) <==> (u.placement_index.dom().contains(r)
        && u.placement_index[r] == n)) by {
        if n == x {
            assert(u.placements[n] == seq![at]);
            assert(seq![at][0] == at);
            if p.placement_index.dom().contains(r) && p.placement_index[r] == x {
                assert(p.placements.dom().contains(x));
            }
        } else {
            assert(p.placements.dom().contains(n));
            assert(p.placements[n].contains(r) <==> (p.placement_index.dom().contains(r)
                && p.placement_index[r] == n));
        }
    }
    assert forall|r: Placement| #[trigger] u.placement_index.dom().contains(
        r,
    ) implies u.placements.dom().contains(u.placement_index[r]) && u.lists.dom().contains(r.list)
        && u.lists[r.list].places.dom().contains(r.stamp) by {
        if r != at {
            assert(p.placement_index.dom().contains(r));
            reveal(holds_more);
            assert(p.lists.dom().contains(r.list));
        }
    }
    assert(seq![at].no_duplicates());
}

// --- settling ---

/// A state grown stays so when a node is moved, or a place of one deleted.
pub(crate) proof fn lemma_grow_settle(
    c: ClientId,
    pool: Set<OpV>,
    q: Seq<OpV>,
    a: OpV,
    p: TreeV,
    rank: spec_fn(ElementId) -> nat,
)
    requires
        authored_alone(pool),
        ranked(pool, rank),
        runs_in_turn(c, pool, q),
        pool.contains(a),
        !q.contains(a),
        grown(p, traces(q), rank),
        p.takes_settling(a),
    ensures
        grown(loosened(p, a).refold(), traces(q.push(a)), rank),
        holds_more(p, loosened(p, a).refold()),
        steady(p, loosened(p, a).refold()),
{
    let k = traces(q);
    let n = traces(q.push(a));
    let x = loosened(p, a);
    let u = x.refold();
    lemma_traces_push(q, a);
    lemma_known_grows(p, k, n);
    assert(p.placements.dom().finite() && p.revealed == Set::<ElementId>::empty()) by {
        reveal(known);
    }
    if a.kind is XmlMove {
        lemma_children_target(c, pool, q, a, p, rank);
        lemma_moved_fields(p, a);
        assert(leaves(a, TraceV::Moved(a.stamp)));
        assert(n.contains(TraceV::Moved(a.stamp)));
        assert(n.contains(TraceV::Item(a.target, a.stamp))) by {
            assert(writes_of(a).len() == 3 && trace_of(writes_of(a)[2]) == Some(
                TraceV::Item(a.target, a.stamp),
            )) by {
                reveal(writes_of);
            }
            assert(wrote(a, TraceV::Item(a.target, a.stamp)));
        }
    }
    assert(x.placements.dom().finite());
    lemma_gist_refold(x);
    crate::settle_laws::lemma_refold_keeps(x);
    crate::gist::lemma_gist_doms(x);
    crate::gist::lemma_gist_doms(u);
    assert forall|l: ElementId| #[trigger] u.lists.dom().contains(l) implies u.lists[l].places
        == x.lists[l].places by {
        assert(u.gist().tree.lists[l].places == x.gist().tree.lists[l].places);
    }
    lemma_loosened_seated(p, a, x, k, rank);
    assert(known(x, n)) by {
        reveal(known);
        if a.kind is XmlMove {
            assert(x.revealed =~= Set::empty());
        }
    }
    assert(seated(u)) by {
        lemma_refold_seated(x, u);
    }
    assert(known(u, n)) by {
        lemma_refold_known(x, u, n);
    }
    assert(holds_more(p, u)) by {
        lemma_settle_more(p, x, u, a);
    }
    assert(steady(p, u)) by {
        assert forall|y: ElementId| #[trigger] p.parents.dom().contains(y)
            && !p.placements.dom().contains(y) implies u.parents.dom().contains(y) && u.parents[y]
            == p.parents[y] by {
            assert(link_of(u.parents, y) == link_of(x.parents, y));
        }
    }
    assert(hung_in(u, u, n, rank)) by {
        lemma_refold_hung(p, x, u, a, k, n, rank);
    }
    assert forall|y: ElementId| #[trigger] born_in(n, y) implies u.placements.dom().contains(y) by {
        let l = choose|l: ElementId| #[trigger] n.contains(TraceV::Born(y, l));
        if leaves(a, TraceV::Born(y, l)) {
            let j = choose|j: int|
                0 <= j < writes_of(a).len() && trace_of(#[trigger] writes_of(a)[j]) == Some(
                    TraceV::Born(y, l),
                );
            if a.kind is XmlMove {
                reveal(writes_of);
            } else {
                assert(writes_of(a) == effect(a, None)) by {
                    reveal(writes_of);
                }
                lemma_edit_writes(a, j);
            }
        } else {
            assert(k.contains(TraceV::Born(y, l)));
            assert(born_in(k, y));
        }
    }
}

/// What a move leaves to be settled.
proof fn lemma_moved_fields(p: TreeV, a: OpV)
    requires
        p.takes_settling(a),
        a.kind is XmlMove,
        p.revealed == Set::<ElementId>::empty(),
    ensures
        ({
            let x = loosened(p, a);
            let node = a.kind->XmlMove_node;
            &&& p.placements.dom().contains(node)
            &&& x.placements == p.placements.insert(node, p.placements[node].push(place_of(a)))
            &&& x.placements.dom() == p.placements.dom()
            &&& x.parents == p.parents
            &&& x.moves.base == p.moves.base
            &&& x.moves.log == p.moves.log.insert(
                a.stamp,
                MoveEdge { child: node, parent: p.parents[a.target] },
            )
            &&& x.placement_index == p.placement_index.insert(place_of(a), node)
            &&& x.lists.dom() == p.lists.dom()
        }),
{
    let x = loosened(p, a);
    assert(x.placements.dom() =~= p.placements.dom());
    assert(x.lists.dom() =~= p.lists.dom());
}

/// What is loosened has its places and moves in order.
proof fn lemma_loosened_seated(
    p: TreeV,
    a: OpV,
    x: TreeV,
    k: Set<TraceV>,
    rank: spec_fn(ElementId) -> nat,
)
    requires
        grown(p, k, rank),
        p.takes_settling(a),
        x == loosened(p, a),
        p.revealed == Set::<ElementId>::empty(),
        a.kind is XmlMove ==> has_children(p, p.parents[a.target]),
    ensures
        places_told(x),
        x.parents == p.parents,
        x.lists.dom() == p.lists.dom(),
        forall|l: ElementId| #[trigger]
            p.lists.dom().contains(l) ==> p.lists[l].places.dom().subset_of(
                x.lists[l].places.dom(),
            ),
        x.placements.dom() == p.placements.dom(),
        x.moves.base == p.moves.base,
{
    reveal(seated);
    reveal(places_told);
    assert(x.lists.dom() =~= p.lists.dom());
    if a.kind is XmlMove {
        lemma_moved_fields(p, a);
        let node = a.kind->XmlMove_node;
        let at = place_of(a);
        let was = p.placements[node];
        assert forall|n: ElementId, r: Placement| x.placements.dom().contains(n) implies (
        #[trigger] x.placements[n].contains(r) <==> (x.placement_index.dom().contains(r)
            && x.placement_index[r] == n)) by {
            assert(p.placements[n].contains(r) <==> (p.placement_index.dom().contains(r)
                && p.placement_index[r] == n));
            if n == node {
                assert(x.placements[n] == was.push(at));
                if was.contains(r) {
                    assert(was.push(at)[was.index_of(r)] == r);
                }
                assert(was.push(at)[was.len() as int] == at);
            } else if r == at {
                assert(!p.placements[n].contains(at));
            }
        }
        assert(was.push(at).no_duplicates()) by {
            assert(!was.contains(at));
            assert forall|i: int, j: int| 0 <= i < j < was.push(at).len() implies was.push(at)[i]
                != was.push(at)[j] by {
                assert(was.contains(was[i]));
            }
        }
    }
    assert forall|y: ElementId| has_children(p, y) implies #[trigger] has_children(x, y) by {}
}

/// Whether places and moves of a state are in order, whatever placed nodes hang off.
#[verifier::opaque]
spec fn places_told(t: TreeV) -> bool {
    &&& forall|n: ElementId, p: Placement|
        t.placements.dom().contains(n) ==> (#[trigger] t.placements[n].contains(p) <==> (
        t.placement_index.dom().contains(p) && t.placement_index[p] == n))
    &&& forall|n: ElementId| #[trigger]
        t.placements.dom().contains(n) ==> t.placements[n].len() > 0
            && t.placements[n].no_duplicates()
    &&& forall|p: Placement| #[trigger]
        t.placement_index.dom().contains(p) ==> t.placements.dom().contains(t.placement_index[p])
            && t.lists.dom().contains(p.list) && t.lists[p.list].places.dom().contains(p.stamp)
    &&& forall|n: ElementId| #[trigger]
        t.placements.dom().contains(n) ==> t.node_handle(n) is Some && t.moves.base.dom().contains(
            n,
        ) && has_children(t, t.moves.base[n])
    &&& forall|s: Stamp| #[trigger]
        t.moves.log.dom().contains(s) ==> t.placements.dom().contains(t.moves.log[s].child)
            && has_children(t, t.moves.log[s].parent)
}

/// Settling seats every node.
proof fn lemma_refold_seated(x: TreeV, u: TreeV)
    requires
        places_told(x),
        x.placements.dom().finite(),
        u == (TreeV { lists: u.lists, parents: u.parents, ..x }),
        u.lists.dom() == x.lists.dom(),
        forall|l: ElementId| #[trigger]
            u.lists.dom().contains(l) ==> u.lists[l].places == x.lists[l].places,
        forall|y: ElementId| #[trigger]
            link_of(u.parents, y) == if x.placements.dom().contains(y)
                && x.moves.tree().dom().contains(y) {
                Some(node_children_id(x.moves.tree()[y]))
            } else {
                link_of(x.parents, y)
            },
    ensures
        seated(u),
{
    reveal(places_told);
    reveal(seated);
    lemma_replay_keeps(x.moves.base, x.moves.log, in_order(x.moves.log.dom()));
    assert forall|y: ElementId| has_children(x, y) implies #[trigger] has_children(u, y) by {
        let l = node_children_id(y);
        assert(link_of(u.parents, l) == link_of(x.parents, l));
    }
    assert forall|n: ElementId| #[trigger] u.placements.dom().contains(n)
        implies u.parents.dom().contains(n) && u.moves.tree().dom().contains(n) && u.parents[n]
        == node_children_id(u.moves.tree()[n]) by {
        assert(x.placements.dom().contains(n));
        assert(link_of(u.parents, n) == Some(node_children_id(x.moves.tree()[n])));
    }
}

/// Settling leaves everything known.
proof fn lemma_refold_known(x: TreeV, u: TreeV, n: Set<TraceV>)
    requires
        known(x, n),
        u == (TreeV { lists: u.lists, parents: u.parents, ..x }),
        u.lists.dom() == x.lists.dom(),
        forall|l: ElementId| #[trigger]
            u.lists.dom().contains(l) ==> u.lists[l].places == x.lists[l].places,
        forall|y: ElementId| #[trigger]
            link_of(u.parents, y) == if x.placements.dom().contains(y)
                && x.moves.tree().dom().contains(y) {
                Some(node_children_id(x.moves.tree()[y]))
            } else {
                link_of(x.parents, y)
            },
    ensures
        known(u, n),
{
    reveal(known);
    assert forall|y: ElementId| #[trigger] u.parents.dom().contains(y) implies n.contains(
        TraceV::Link(y, u.parents[y]),
    ) || born_in(n, y) by {
        assert(link_of(u.parents, y) is Some);
        if !x.placements.dom().contains(y) {
            assert(x.parents.dom().contains(y));
        }
    }
    assert(u.parents.dom().subset_of(x.parents.dom().union(x.placements.dom()))) by {
        assert forall|y: ElementId| u.parents.dom().contains(y) implies x.parents.dom().union(
            x.placements.dom(),
        ).contains(y) by {
            assert(link_of(u.parents, y) is Some);
        }
    }
    vstd::set_lib::lemma_len_subset(u.parents.dom(), x.parents.dom().union(x.placements.dom()));
}

/// Settling loses nothing.
proof fn lemma_settle_more(p: TreeV, x: TreeV, u: TreeV, a: OpV)
    requires
        p.takes_settling(a),
        x == loosened(p, a),
        seated(p),
        x.parents == p.parents,
        x.lists.dom() == p.lists.dom(),
        x.placements.dom() == p.placements.dom(),
        x.moves.base == p.moves.base,
        forall|l: ElementId| #[trigger]
            p.lists.dom().contains(l) ==> p.lists[l].places.dom().subset_of(
                x.lists[l].places.dom(),
            ),
        u == (TreeV { lists: u.lists, parents: u.parents, ..x }),
        u.lists.dom() == x.lists.dom(),
        forall|l: ElementId| #[trigger]
            u.lists.dom().contains(l) ==> u.lists[l].places == x.lists[l].places,
        forall|y: ElementId| #[trigger]
            link_of(u.parents, y) == if x.placements.dom().contains(y)
                && x.moves.tree().dom().contains(y) {
                Some(node_children_id(x.moves.tree()[y]))
            } else {
                link_of(x.parents, y)
            },
    ensures
        holds_more(p, u),
        forall|y: ElementId| #[trigger] registered(u, y) ==> registered(p, y),
{
    reveal(holds_more);
    assert forall|y: ElementId| p.parents.dom().contains(y) implies u.parents.dom().contains(y) by {
        assert(link_of(u.parents, y) is Some);
    }
    assert forall|l: ElementId| #[trigger] p.lists.dom().contains(l)
        implies p.lists[l].places.dom().subset_of(u.lists[l].places.dom()) by {
        assert(u.lists.dom().contains(l));
    }
}

/// Settling hangs every placed node off a sequence that is here.
proof fn lemma_refold_hung(
    p: TreeV,
    x: TreeV,
    u: TreeV,
    a: OpV,
    k: Set<TraceV>,
    n: Set<TraceV>,
    rank: spec_fn(ElementId) -> nat,
)
    requires
        grown(p, k, rank),
        k.subset_of(n),
        known(u, n),
        seated(u),
        holds_more(p, u),
        forall|y: ElementId| #[trigger] registered(u, y) ==> registered(p, y),
        u.ranged == p.ranged,
        u.placements.dom() == p.placements.dom(),
        u.moves.base == p.moves.base,
        x.parents == p.parents,
        x.placements.dom() == p.placements.dom(),
        forall|y: ElementId| #[trigger]
            link_of(u.parents, y) == if x.placements.dom().contains(y)
                && x.moves.tree().dom().contains(y) {
                Some(node_children_id(x.moves.tree()[y]))
            } else {
                link_of(x.parents, y)
            },
    ensures
        hung_in(u, u, n, rank),
{
    assert(u.moves.log.dom().finite()) by {
        reveal(known);
    }
    assert forall|y: ElementId| #[trigger] u.placements.dom().contains(y) implies registered(
        u,
        u.parents[y],
    ) && u.parents.dom().contains(y) && y != root_element() && born_in(n, y) by {
        lemma_effective(u, y);
        reveal(seated);
        assert(u.lists.dom().contains(u.parents[y]));
        assert(born_in(n, y)) by {
            reveal(known);
        }
        reveal(hung_in);
        assert(p.placements.dom().contains(y));
    }
    reveal(hung_in);
    reveal(holds_more);
    assert forall|y: ElementId| #[trigger] u.parents.dom().contains(y) implies registered(
        u,
        u.parents[y],
    ) && y != root_element() && (!born_in(n, y) ==> u.moves.base.dom().contains(y)
        && u.moves.base[y] == u.parents[y]) by {
        assert(link_of(u.parents, y) is Some);
        if !u.placements.dom().contains(y) {
            assert(link_of(u.parents, y) == link_of(p.parents, y));
            assert(p.parents.dom().contains(y));
            if born_in(k, y) {
                lemma_born_grows(k, n, y);
            }
        }
    }
}

// --- what can apply lands ---

/// Whether an id is the root or registered.
pub open spec fn is_here(t: TreeV, x: ElementId) -> bool {
    x == root_element() || registered(t, x)
}

/// Whether a node holds a place.
pub open spec fn is_held(t: TreeV, n: ElementId) -> bool {
    exists|p: Placement| #[trigger] t.placement_index.dom().contains(p) && t.placement_index[p] == n
}

/// Whether what an op needs is there.
#[verifier::opaque]
pub open spec fn has_needs(t: TreeV, op: OpV) -> bool {
    match op.kind {
        OpKindV::XmlInsertChild { .. } => t.lists.dom().contains(op.target),
        OpKindV::XmlMove { node, .. } => t.lists.dom().contains(op.target) && is_held(t, node),
        OpKindV::ListDelete { id } => t.lists.dom().contains(op.target)
            && t.lists[op.target].places.dom().contains(id),
        OpKindV::TextDelete { ids } => t.texts.dom().contains(op.target) && forall|i: int|
            0 <= i < ids.len() ==> t.texts[op.target].places.dom().contains(#[trigger] ids[i]),
        OpKindV::RangedSetPayload { id, .. } => is_here(t, op.target) && t.ranged.dom().contains(id),
        OpKindV::RangedDelete { id } => is_here(t, op.target) && t.ranged.dom().contains(id),
        OpKindV::AclRevoke { id } => is_here(t, op.target) && t.acl.dom().contains(id),
        _ => is_here(t, op.target),
    }
}

proof fn lemma_leads_plain(t: TreeV, x: ElementId, n: nat)
    ensures
        t.plain().leads_to_root(x, false, n) == t.leads_to_root(x, false, n),
    decreases n,
{
    let p = t.plain();
    assert(p.maps.dom() =~= t.maps.dom());
    assert(p.lists.dom() =~= t.lists.dom());
    assert(p.texts.dom() =~= t.texts.dom());
    assert(p.xml_elements.dom() =~= t.xml_elements.dom());
    assert(p.xml_fragments.dom() =~= t.xml_fragments.dom());
    if n > 0 && x != root_element() {
        if let Some(h) = t.holder(x) {
            lemma_leads_plain(t, h, (n - 1) as nat);
        }
    }
}

/// In a grown state an op can apply just where what it needs is there.
pub(crate) proof fn lemma_ready_needs(
    t: TreeV,
    k: Set<TraceV>,
    rank: spec_fn(ElementId) -> nat,
    op: OpV,
)
    requires
        grown(t.plain(), k, rank),
        !(op.kind is XmlReveal),
    ensures
        t.ready(op) == has_needs(t.gist().tree, op),
{
    reveal(has_needs);
    let p = t.plain();
    let g = t.gist().tree;
    crate::gist::lemma_gist_doms(t);
    assert(p.maps.dom() =~= t.maps.dom());
    assert(p.lists.dom() =~= t.lists.dom());
    assert(p.texts.dom() =~= t.texts.dom());
    assert(p.xml_elements.dom() =~= t.xml_elements.dom());
    assert(p.xml_fragments.dom() =~= t.xml_fragments.dom());
    lemma_materialised(p, k, rank, op.target);
    lemma_leads_plain(t, op.target, t.parents.dom().len() + 2);
    assert(registered(g, op.target) == registered(p, op.target));
    if t.texts.dom().contains(op.target) {
        assert(registered(p, op.target));
    }
    if let OpKindV::XmlMove { node, .. } = op.kind {
        assert(t.placements.dom().contains(node) == is_held(g, node)) by {
            reveal(seated);
            if p.placements.dom().contains(node) {
                let r = p.placements[node][0];
                assert(p.placements[node].contains(r));
                assert(g.placement_index.dom().contains(r));
            }
            if is_held(g, node) {
                let r = choose|r: Placement| #[trigger]
                    g.placement_index.dom().contains(r) && g.placement_index[r] == node;
                assert(p.placement_index.dom().contains(r));
            }
        }
        assert(!t.revealed.contains(node)) by {
            reveal(known);
        }
    }
}

/// An op whose target is what it edits lands where what it needs is there.
#[verifier::spinoff_prover]
proof fn lemma_fit_lands(t: TreeV, k: Set<TraceV>, a: OpV)
    requires
        known(t, k),
        seated(t),
        !(a.kind is XmlReveal),
        edits(a.kind) is List || edits(a.kind) is Text || edits(a.kind) is Children ==> a.target
            != root_element(),
        forall|tr: TraceV| #[trigger] k.contains(tr) ==> fits_target(a, tr),
        a.kind is RangedCreate ==> !k.contains(TraceV::Note(spec_ranged_id(a.stamp))),
        edits(a.kind) is Children ==> !k.contains(TraceV::Item(a.target, a.stamp))
            && t.parents.dom().contains(a.target),
        a.kind is XmlMove ==> !k.contains(TraceV::Moved(a.stamp)),
        a.kind is XmlInsertChild ==> a.target != child_of(a) && a.target != node_attrs_id(
            child_of(a),
        ) && a.target != node_children_id(child_of(a)),
        has_needs(t, a),
    ensures
        t.takes(a) || t.takes_settling(a),
        a.kind is XmlMove ==> t.takes_settling(a),
        !(a.kind is XmlMove) && !(a.kind is ListDelete) ==> t.takes(a),
{
    reveal(known);
    reveal(has_needs);
    let m = a.target;
    if t.lists.dom().contains(m) {
        assert(fits_target(a, TraceV::List(m)));
    }
    if t.texts.dom().contains(m) {
        assert(fits_target(a, TraceV::Text(m)));
    }
    if t.maps.dom().contains(m) && m != root_element() {
        assert(fits_target(a, TraceV::LwwMap(m)));
    }
    if t.xml_elements.dom().contains(m) {
        assert(fits_target(a, TraceV::XmlElement(m)));
    }
    if t.xml_fragments.dom().contains(m) {
        assert(fits_target(a, TraceV::XmlFragment(m)));
    }
    if t.ranged.dom().contains(m) {
        assert(fits_target(a, TraceV::Note(m)));
    }
    match a.kind {
        OpKindV::RegisterSet { key, .. } => {
            assert(register_own(m, key, slot_at(t.maps[m].slots, key)));
        },
        OpKindV::XmlMove { node, .. } => {
            let r = choose|r: Placement| #[trigger]
                t.placement_index.dom().contains(r) && t.placement_index[r] == node;
            reveal(seated);
            assert(t.placements.dom().contains(node));
        },
        _ => {},
    }
}

/// An annotation is made once.
proof fn lemma_note_fresh(c: ClientId, pool: Set<OpV>, q: Seq<OpV>, a: OpV)
    requires
        authored_alone(pool),
        runs_in_turn(c, pool, q),
        pool.contains(a),
        !q.contains(a),
        a.kind is RangedCreate,
    ensures
        !traced(q, TraceV::Note(spec_ranged_id(a.stamp))),
{
    let r = spec_ranged_id(a.stamp);
    if traced(q, TraceV::Note(r)) {
        lemma_note_written(a, None);
        reveal(writes_of);
        let i = choose|i: int|
            0 <= i < effect(a, None).len() && (#[trigger] effect(a, None)[i]) is Note
                && effect(a, None)[i]->Note_id == r;
        assert(writes_of(a)[i] is Note && writes_of(a)[i]->Note_id == r);
        let w = lemma_other(c, pool, q, a, i, TraceV::Note(r));
    }
}

/// A place is taken once.
pub(crate) proof fn lemma_place_fresh(c: ClientId, pool: Set<OpV>, q: Seq<OpV>, a: OpV)
    requires
        authored_alone(pool),
        runs_in_turn(c, pool, q),
        pool.contains(a),
        !q.contains(a),
        edits(a.kind) is Children,
    ensures
        !traced(q, TraceV::Item(a.target, a.stamp)),
        a.kind is XmlMove ==> !traced(q, TraceV::Moved(a.stamp)),
{
    let tr = TraceV::Item(a.target, a.stamp);
    if traced(q, tr) {
        let i: int = if a.kind is XmlMove {
            2
        } else {
            born(child_of(a), child_container(a.kind->XmlInsertChild_tag)).len() as int + 3
        };
        assert(0 <= i < writes_of(a).len() && writes_of(a)[i] is ListPut
            && writes_of(a)[i]->ListPut_list == a.target && writes_of(a)[i]->ListPut_id == a.stamp)
            by {
            reveal(writes_of);
        }
        let w = lemma_other(c, pool, q, a, i, tr);
        lemma_put_alike(writes_of(a)[i], w);
    }
    if a.kind is XmlMove && traced(q, TraceV::Moved(a.stamp)) {
        let b = lemma_tracer(c, pool, q, TraceV::Moved(a.stamp));
        lemma_pool_pair(pool, a, b);
        assert(!wrote(b, TraceV::Moved(a.stamp))) by {
            if wrote(b, TraceV::Moved(a.stamp)) {
                let j = choose|j: int|
                    0 <= j < writes_of(b).len() && trace_of(#[trigger] writes_of(b)[j]) == Some(
                        TraceV::Moved(a.stamp),
                    );
            }
        }
    }
}

proof fn lemma_put_alike(v: WriteV, w: WriteV)
    requires
        v is ListPut,
        trace_of(w) == Some(TraceV::Item(v->ListPut_list, v->ListPut_id)),
    ensures
        !apart(v, w),
        !crate::authored::crossed(v, w),
{
}

/// An op that can apply lands.
pub(crate) proof fn lemma_lands(
    c: ClientId,
    pool: Set<OpV>,
    q: Seq<OpV>,
    a: OpV,
    t: TreeV,
    rank: spec_fn(ElementId) -> nat,
)
    requires
        authored_alone(pool),
        ranked(pool, rank),
        runs_in_turn(c, pool, q),
        pool.contains(a),
        !q.contains(a),
        grown(t.plain(), traces(q), rank),
        t.ready(a),
    ensures
        t.plain().takes(a) || t.plain().takes_settling(a),
        a.kind is XmlMove ==> t.plain().takes_settling(a),
        !(a.kind is XmlMove) && !(a.kind is ListDelete) ==> t.plain().takes(a),
{
    let p = t.plain();
    let k = traces(q);
    lemma_pool_op(pool, a);
    lemma_ready_needs(t, k, rank, a);
    crate::gist::lemma_gist_doms(t);
    assert(has_needs(p, a)) by {
        reveal(has_needs);
        assert(p.maps.dom() =~= t.maps.dom());
        assert(p.lists.dom() =~= t.lists.dom());
        assert(p.texts.dom() =~= t.texts.dom());
        assert(p.xml_elements.dom() =~= t.xml_elements.dom());
        assert(p.xml_fragments.dom() =~= t.xml_fragments.dom());
        let g = t.gist().tree;
        assert(registered(g, a.target) == registered(p, a.target));
        if t.lists.dom().contains(a.target) {
            assert(g.lists[a.target].places == p.lists[a.target].places);
        }
        if t.texts.dom().contains(a.target) {
            assert(g.texts[a.target].places == p.texts[a.target].places);
        }
        if let OpKindV::XmlMove { node, .. } = a.kind {
            let r = choose|r: Placement| #[trigger]
                g.placement_index.dom().contains(r) && g.placement_index[r] == node;
            assert(p.placement_index.dom().contains(r));
        }
    }
    assert forall|tr: TraceV| #[trigger] k.contains(tr) implies fits_target(a, tr) by {
        let b = lemma_tracer(c, pool, q, tr);
        lemma_pool_fit(pool, a, b, tr);
    }
    if a.kind is RangedCreate {
        lemma_note_fresh(c, pool, q, a);
    }
    if edits(a.kind) is Children {
        lemma_place_fresh(c, pool, q, a);
        assert(p.lists.dom().contains(a.target)) by {
            reveal(has_needs);
        }
        lemma_children_target(c, pool, q, a, p, rank);
    }
    lemma_fit_lands(p, k, a);
}

/// The state after an op that can apply, but for what displacement says.
pub(crate) open spec fn landed(p: TreeV, a: OpV) -> TreeV {
    if p.takes(a) {
        p.writes(effect(a, p.owner_of(a)))
    } else {
        loosened(p, a).refold().write(
            WriteV::Raise { stamp: a.stamp, span: spec_span(a.kind) },
        )
    }
}

pub(crate) proof fn lemma_landed(t: TreeV, a: OpV)
    requires
        t.plain().takes(a) || t.plain().takes_settling(a),
        t.placements.dom().finite(),
    ensures
        t.apply_kind(a.target, a.kind, a.stamp, a.id.client).plain() == landed(t.plain(), a),
{
    let p = t.plain();
    crate::commute::lemma_plain_takes(t, a);
    if p.takes(a) {
        lemma_effect(t, a);
    } else {
        assert(p.lists.dom() =~= t.lists.dom());
        assert(t.takes_settling(a)) by {
            assert(p.xml_elements.dom() =~= t.xml_elements.dom());
            assert(p.texts.dom() =~= t.texts.dom());
        }
        lemma_settling(t, a);
        lemma_plain_loosened(t, a);
        let x = loosened(t, a).refold();
        let w = WriteV::Raise { stamp: a.stamp, span: spec_span(a.kind) };
        assert(x.write(w).plain() == x.plain().write(w));
    }
}

/// A state that a run leads to is grown.
pub(crate) proof fn lemma_grown(
    c: ClientId,
    pool: Set<OpV>,
    q: Seq<OpV>,
    rank: spec_fn(ElementId) -> nat,
)
    requires
        authored_alone(pool),
        ranked(pool, rank),
        runs_in_turn(c, pool, q),
    ensures
        grown(DocV::empty(c).ran(q).tree.plain(), traces(q), rank),
    decreases q.len(),
{
    if q.len() == 0 {
        lemma_grown_empty(c, q, rank);
    } else {
        let h = q.drop_last();
        let a = q.last();
        lemma_runs_prefix(c, pool, q);
        assert(h.push(a) =~= q);
        lemma_grown(c, pool, h, rank);
        lemma_grow(c, pool, h, a, rank);
    }
}

/// An op that can apply leads from a grown state to one.
pub(crate) proof fn lemma_grow(
    c: ClientId,
    pool: Set<OpV>,
    q: Seq<OpV>,
    a: OpV,
    rank: spec_fn(ElementId) -> nat,
)
    requires
        authored_alone(pool),
        ranked(pool, rank),
        runs_in_turn(c, pool, q),
        pool.contains(a),
        !q.contains(a),
        grown(DocV::empty(c).ran(q).tree.plain(), traces(q), rank),
        DocV::empty(c).ran(q).tree.ready(a),
    ensures
        grown(DocV::empty(c).ran(q).applied(a).tree.plain(), traces(q.push(a)), rank),
        holds_more(
            DocV::empty(c).ran(q).tree.plain(),
            DocV::empty(c).ran(q).applied(a).tree.plain(),
        ),
        steady(
            DocV::empty(c).ran(q).tree.plain(),
            DocV::empty(c).ran(q).applied(a).tree.plain(),
        ),
        DocV::empty(c).ran(q).applied(a).tree.gist() == DocV::empty(c).ran(q).tree.gist().after(a),
{
    let t = DocV::empty(c).ran(q).tree;
    let p = t.plain();
    let u = DocV::empty(c).ran(q).applied(a).tree;
    lemma_pool_op(pool, a);
    lemma_lands(c, pool, q, a, t, rank);
    assert(p.placements.dom().finite() && p.revealed == Set::<ElementId>::empty()) by {
        reveal(known);
    }
    lemma_landed(t, a);
    crate::gist::lemma_gist_plain(t);
    crate::gist::lemma_gist_plain(u);
    if p.takes(a) {
        if a.kind is XmlInsertChild {
            lemma_grow_bear(c, pool, q, a, p, rank);
            lemma_links_steady(p, u.plain());
            lemma_children_target(c, pool, q, a, p, rank);
            lemma_child_new(c, pool, q, a, p, rank);
            crate::gist::lemma_gist_born(p, a);
        } else {
            lemma_grow_edit(c, pool, q, a, p, rank);
            lemma_same_effect(a, p.owner_of(a), None);
            lemma_links_steady(p, u.plain());
            lemma_gist_edit(c, pool, q, a, p, rank);
        }
    } else {
        lemma_grow_settle(c, pool, q, a, p, rank);
        let x = loosened(p, a).refold();
        let raise = WriteV::Raise { stamp: a.stamp, span: spec_span(a.kind) };
        lemma_raise_grown(x, traces(q.push(a)), rank, raise);
        assert(holds_more(p, x.write(raise))) by {
            lemma_more_write(p, x, raise);
        }
        if a.kind is XmlMove {
            lemma_children_target(c, pool, q, a, p, rank);
        } else {
            lemma_deleted_target(c, pool, q, a, p, rank);
        }
        crate::gist::lemma_gist_loosened(p, a);
        crate::gist::lemma_gist_raise(x, a.stamp, spec_span(a.kind));
    }
}

/// A sequence that something is deleted from is no placed node.
proof fn lemma_deleted_target(
    c: ClientId,
    pool: Set<OpV>,
    q: Seq<OpV>,
    a: OpV,
    p: TreeV,
    rank: spec_fn(ElementId) -> nat,
)
    requires
        authored_alone(pool),
        runs_in_turn(c, pool, q),
        pool.contains(a),
        grown(p, traces(q), rank),
        p.lists.dom().contains(a.target),
    ensures
        !p.placements.dom().contains(a.target),
{
    let k = traces(q);
    let l = a.target;
    reveal(known);
    assert(k.contains(TraceV::List(l)));
    let d = lemma_tracer(c, pool, q, TraceV::List(l));
    if p.placements.dom().contains(l) {
        let m = choose|m: ElementId| #[trigger] k.contains(TraceV::Born(l, m));
        let b = lemma_tracer(c, pool, q, TraceV::Born(l, m));
        lemma_pool_born(pool, b, d, l, m);
    }
}

/// A recorded stamp leaves a grown state grown.
proof fn lemma_raise_grown(t: TreeV, k: Set<TraceV>, rank: spec_fn(ElementId) -> nat, w: WriteV)
    requires
        grown(t, k, rank),
        w is Raise,
    ensures
        grown(t.write(w), k, rank),
{
    lemma_known_write(t, k, w);
    let u = t.write(w);
    assert(u == (TreeV { high_water: u.high_water, ..t }));
    reveal(hung_in);
    reveal(seated);
    assert forall|x: ElementId| #[trigger] registered(u, x) == registered(t, x) by {}
    assert forall|x: ElementId| #[trigger] has_children(t, x) implies has_children(u, x) by {}
}

/// The gist after an edit.
proof fn lemma_gist_edit(
    c: ClientId,
    pool: Set<OpV>,
    q: Seq<OpV>,
    a: OpV,
    p: TreeV,
    rank: spec_fn(ElementId) -> nat,
)
    requires
        authored_alone(pool),
        ranked(pool, rank),
        runs_in_turn(c, pool, q),
        pool.contains(a),
        !q.contains(a),
        grown(p, traces(q), rank),
        p.takes(a),
        !(a.kind is XmlInsertChild),
    ensures
        p.writes(effect(a, None)).gist() == p.gist().after(a),
{
    lemma_pool_op(pool, a);
    let ws = effect(a, None);
    let raise = WriteV::Raise { stamp: a.stamp, span: spec_span(a.kind) };
    let b = body(a.target, a.kind, a.stamp, a.id.client, None);
    assert(ws =~= seq![raise] + b);
    lemma_writes_concat(p, seq![raise], b);
    lemma_writes_one(p, raise);
    crate::gist::lemma_gist_raise(p, a.stamp, spec_span(a.kind));
    let p0 = p.write(raise);
    assert(ws == writes_of(a)) by {
        reveal(writes_of);
    }
    assert forall|i: int| 0 <= i < b.len() implies crate::gist::unplacing(#[trigger] b[i]) && (
    b[i] matches WriteV::Link { child, .. } ==> !p0.placements.dom().contains(child)) by {
        assert(ws[i + 1] == b[i]);
        lemma_edit_writes(a, i + 1);
        if ws[i + 1] is Link {
            lemma_link_fits(c, pool, q, a, i + 1, p, rank);
        }
    }
    crate::gist::lemma_gist_writes(p0, b);
}

proof fn lemma_grown_empty(c: ClientId, q: Seq<OpV>, rank: spec_fn(ElementId) -> nat)
    requires
        q.len() == 0,
    ensures
        grown(DocV::empty(c).ran(q).tree.plain(), traces(q), rank),
{
    let t = TreeV::empty();
    let p = t.plain();
    assert(DocV::empty(c).ran(q).tree == t);
    assert(p.maps.dom() =~= t.maps.dom());
    assert(p.lists.dom() =~= t.lists.dom());
    assert(p.texts.dom() =~= t.texts.dom());
    assert(p.xml_elements.dom() =~= t.xml_elements.dom());
    assert(p.xml_fragments.dom() =~= t.xml_fragments.dom());
    assert(known(p, traces(q))) by {
        reveal(known);
        assert forall|m: ElementId, key: Seq<u8>| p.maps.dom().contains(m)
            implies #[trigger] register_own(m, key, slot_at(p.maps[m].slots, key)) by {
            assert(m == root_element());
            assert(p.maps[m].slots == Map::<Seq<u8>, SlotV>::empty());
            assert(slot_at(p.maps[m].slots, key) is None);
        }
    }
    assert(hung_in(p, p, traces(q), rank)) by {
        reveal(hung_in);
    }
    assert(seated(p)) by {
        reveal(seated);
    }
    assert forall|x: ElementId| #[trigger] born_in(traces(q), x) implies p.placements.dom().contains(
        x,
    ) by {
        let l = choose|l: ElementId| #[trigger] traces(q).contains(TraceV::Born(x, l));
        assert(traced(q, TraceV::Born(x, l)));
    }
}

// --- two ops ---

/// What an op needs is told from the gist.
pub(crate) proof fn lemma_needs_plain(t: TreeV, a: OpV)
    ensures
        has_needs(t.gist().tree, a) == has_needs(t.plain(), a),
{
    reveal(has_needs);
    let p = t.plain();
    let g = t.gist().tree;
    crate::gist::lemma_gist_doms(t);
    assert(p.maps.dom() =~= t.maps.dom());
    assert(p.lists.dom() =~= t.lists.dom());
    assert(p.texts.dom() =~= t.texts.dom());
    assert(p.xml_elements.dom() =~= t.xml_elements.dom());
    assert(p.xml_fragments.dom() =~= t.xml_fragments.dom());
    assert(registered(g, a.target) == registered(p, a.target));
    assert(p.placement_index == g.placement_index);
    if t.lists.dom().contains(a.target) {
        assert(g.lists[a.target].places == p.lists[a.target].places);
    }
    if t.texts.dom().contains(a.target) {
        assert(g.texts[a.target].places == p.texts[a.target].places);
    }
    if let OpKindV::XmlMove { node, .. } = a.kind {
        if is_held(g, node) {
            let r = choose|r: Placement| #[trigger]
                g.placement_index.dom().contains(r) && g.placement_index[r] == node;
            assert(p.placement_index.dom().contains(r));
        }
        if is_held(p, node) {
            let r = choose|r: Placement| #[trigger]
                p.placement_index.dom().contains(r) && p.placement_index[r] == node;
            assert(g.placement_index.dom().contains(r));
        }
    }
}

/// What an op needs stays there.
proof fn lemma_needs_more(p: TreeV, u: TreeV, b: OpV)
    requires
        holds_more(p, u),
        seated(p),
        seated(u),
        has_needs(p, b),
    ensures
        has_needs(u, b),
{
    reveal(has_needs);
    reveal(holds_more);
    if registered(p, b.target) {
        assert(registered(u, b.target));
    }
    match b.kind {
        OpKindV::XmlMove { node, .. } => {
            reveal(seated);
            let r = choose|r: Placement| #[trigger]
                p.placement_index.dom().contains(r) && p.placement_index[r] == node;
            assert(p.placements.dom().contains(node));
            assert(u.placements.dom().contains(node));
            let w = u.placements[node][0];
            assert(u.placements[node].contains(w));
            assert(u.placement_index.dom().contains(w));
        },
        OpKindV::TextDelete { ids } => {
            assert forall|i: int| 0 <= i < ids.len()
                implies u.texts[b.target].places.dom().contains(#[trigger] ids[i]) by {
                assert(p.texts[b.target].places.dom().contains(ids[i]));
            }
        },
        _ => {},
    }
}

/// Whether two writes are one, or put one item in one place.
pub(crate) open spec fn similar(v: WriteV, w: WriteV) -> bool {
    v == w || (v is ListPut && w is ListPut && v->ListPut_list == w->ListPut_list && v->ListPut_id
        == w->ListPut_id)
}

/// Every write to a gist is one of the op's, but for what a child is made under.
pub(crate) proof fn lemma_static(g: crate::gist::GistV, a: OpV, i: int) -> (j: int)
    requires
        !(a.kind is XmlReveal),
        0 <= i < g.writes_for(a).len(),
    ensures
        g.writes_for(a)[i] is Base || (0 <= j < writes_of(a).len() && similar(
            g.writes_for(a)[i],
            writes_of(a)[j],
        )),
        g.writes_for(a)[i] is Base ==> a.kind is XmlInsertChild && g.writes_for(a)[i]->Base_child
            == child_of(a),
        g.writes_for(a)[i] is Hold ==> edits(a.kind) is Children && g.writes_for(a)[i]->Hold_at
            == place_of(a),
        g.writes_for(a)[i] matches WriteV::ListDrop { list, id } ==> list == a.target && a.kind
            == (OpKindV::ListDelete { id }),
        g.writes_for(a)[i] matches WriteV::TextDrop { text, id } ==> text == a.target && (
        a.kind matches OpKindV::TextDelete { ids } && ids.contains(id)),
{
    reveal(writes_of);
    match a.kind {
        OpKindV::XmlInsertChild { tag, .. } => {
            let b = born(child_of(a), child_container(tag));
            let n: int = b.len() as int;
            if i < n {
                assert(g.writes_for(a)[i] == b[i]);
                assert(writes_of(a)[i + 1] == b[i]);
                i + 1
            } else if i == n {
                n + 2
            } else {
                n + 3
            }
        },
        OpKindV::XmlMove { .. } => i + 1,
        _ => {
            lemma_edit_writes(a, i + 1);
            assert(writes_of(a)[i + 1] == g.writes_for(a)[i]);
            i + 1
        },
    }
}

/// What an op can delete has been put in.
proof fn lemma_drop_traced(
    c: ClientId,
    pool: Set<OpV>,
    q: Seq<OpV>,
    a: OpV,
    p: TreeV,
    v: WriteV,
) -> (tr: TraceV)
    requires
        known(p, traces(q)),
        has_needs(p, a),
        v matches WriteV::ListDrop { list, id } ==> list == a.target && a.kind == (
        OpKindV::ListDelete { id }),
        v matches WriteV::TextDrop { text, id } ==> text == a.target && (
        a.kind matches OpKindV::TextDelete { ids } && ids.contains(id)),
        v is ListDrop || v is TextDrop,
    ensures
        traced(q, tr),
        v matches WriteV::ListDrop { list, id } ==> tr == TraceV::Item(list, id),
        v matches WriteV::TextDrop { text, id } ==> tr == TraceV::Codepoint(text, id),
{
    reveal(known);
    reveal(has_needs);
    match v {
        WriteV::ListDrop { list, id } => {
            assert(p.lists[list].places.dom().contains(id));
            assert(traces(q).contains(TraceV::Item(list, id)));
            TraceV::Item(list, id)
        },
        WriteV::TextDrop { text, id } => {
            if let OpKindV::TextDelete { ids } = a.kind {
                let n: int = ids.index_of(id);
                assert(p.texts[text].places.dom().contains(ids[n]));
            }
            assert(traces(q).contains(TraceV::Codepoint(text, id)));
            TraceV::Codepoint(text, id)
        },
        _ => arbitrary(),
    }
}

/// One item is not put in twice, so what was put in before is not what is put in now.
proof fn lemma_uncrossed(put: WriteV, w: WriteV, taken: WriteV)
    requires
        put is ListPut || put is TextPut,
        taken is ListDrop || taken is TextDrop,
        taken matches WriteV::ListDrop { list, id } ==> trace_of(w) == Some(
            TraceV::Item(list, id),
        ),
        taken matches WriteV::TextDrop { text, id } ==> trace_of(w) == Some(
            TraceV::Codepoint(text, id),
        ),
        apart(put, w) || crate::authored::crossed(put, w),
    ensures
        apart(put, taken),
        apart(taken, put),
{
}

proof fn lemma_apart_similar(v: WriteV, w: WriteV, x: WriteV, y: WriteV)
    requires
        similar(v, x),
        similar(w, y),
    ensures
        apart(v, w) == apart(x, y),
        crate::authored::crossed(v, w) == crate::authored::crossed(x, y),
{
}

/// A deletion and what is put in or held elsewhere are apart.
proof fn lemma_taken_apart(
    c: ClientId,
    pool: Set<OpV>,
    q: Seq<OpV>,
    a: OpV,
    b: OpV,
    v: WriteV,
    w: WriteV,
    j: int,
    p: TreeV,
)
    requires
        authored_alone(pool),
        runs_in_turn(c, pool, q),
        pool.contains(b),
        !q.contains(b),
        known(p, traces(q)),
        has_needs(p, a),
        v matches WriteV::ListDrop { list, id } ==> list == a.target && a.kind == (
        OpKindV::ListDelete { id }),
        v matches WriteV::TextDrop { text, id } ==> text == a.target && (
        a.kind matches OpKindV::TextDelete { ids } && ids.contains(id)),
        v is ListDrop || v is TextDrop,
        crate::authored::crossed(v, w),
        0 <= j < writes_of(b).len(),
        similar(w, writes_of(b)[j]),
        w is Hold ==> edits(b.kind) is Children && w->Hold_at == place_of(b),
    ensures
        apart(v, w),
        apart(w, v),
{
    let tr = lemma_drop_traced(c, pool, q, a, p, v);
    if w is Hold {
        lemma_place_fresh(c, pool, q, b);
    } else {
        let o = lemma_other(c, pool, q, b, j, tr);
        lemma_uncrossed(writes_of(b)[j], o, v);
        lemma_apart_similar(v, w, v, writes_of(b)[j]);
        lemma_apart_similar(w, v, writes_of(b)[j], v);
    }
}

/// What two ops that can both apply write to a gist is apart.
proof fn lemma_gist_apart(
    c: ClientId,
    pool: Set<OpV>,
    q: Seq<OpV>,
    a: OpV,
    b: OpV,
    p: TreeV,
    g: crate::gist::GistV,
    i: int,
    j: int,
)
    requires
        authored_alone(pool),
        runs_in_turn(c, pool, q),
        pool.contains(a),
        pool.contains(b),
        a != b,
        !q.contains(a),
        !q.contains(b),
        known(p, traces(q)),
        has_needs(p, a),
        has_needs(p, b),
        0 <= i < g.writes_for(a).len(),
        0 <= j < g.writes_for(b).len(),
    ensures
        apart(g.writes_for(a)[i], g.writes_for(b)[j]),
{
    lemma_pool_op(pool, a);
    lemma_pool_op(pool, b);
    lemma_pool_pair(pool, a, b);
    let v = g.writes_for(a)[i];
    let w = g.writes_for(b)[j];
    let m = lemma_static(g, a, i);
    let n = lemma_static(g, b, j);
    if v is Base || w is Base {
        if v is Base {
            lemma_base_apart(pool, a, b, v, w, n);
        } else {
            lemma_base_apart(pool, b, a, w, v, m);
            assert(apart(v, w) == apart(w, v));
        }
    } else {
        let x = writes_of(a)[m];
        let y = writes_of(b)[n];
        assert(apart(x, y) || crate::authored::crossed(x, y));
        lemma_apart_similar(v, w, x, y);
        if crate::authored::crossed(v, w) {
            if v is ListDrop || v is TextDrop {
                lemma_taken_apart(c, pool, q, a, b, v, w, n, p);
            } else {
                lemma_taken_apart(c, pool, q, b, a, w, v, m, p);
            }
        }
    }
}

/// What a child is made under is told by no other op.
proof fn lemma_base_apart(pool: Set<OpV>, a: OpV, b: OpV, v: WriteV, w: WriteV, j: int)
    requires
        authored_alone(pool),
        pool.contains(a),
        pool.contains(b),
        a != b,
        a.kind is XmlInsertChild,
        v is Base,
        v->Base_child == child_of(a),
        w is Base || (0 <= j < writes_of(b).len() && similar(w, writes_of(b)[j])),
        w is Base ==> b.kind is XmlInsertChild && w->Base_child == child_of(b),
    ensures
        apart(v, w),
{
    let x = child_of(a);
    lemma_leaves_born(a);
    lemma_pool_born(pool, a, b, x, a.target);
    if w is Base {
        lemma_leaves_born(b);
        if child_of(b) == x {
            assert(leaves(b, TraceV::Born(x, b.target)));
        }
    } else if w is Link && w->Link_child == x {
        assert(trace_of(writes_of(b)[j]) == Some(TraceV::Link(x, w->Link_parent)));
        assert(wrote(b, TraceV::Link(x, w->Link_parent)));
        assert(leaves(b, TraceV::Link(x, w->Link_parent)));
    }
}

pub(crate) proof fn lemma_leaves_born(a: OpV)
    requires
        a.kind is XmlInsertChild,
    ensures
        leaves(a, TraceV::Born(child_of(a), a.target)),
{
    let x = child_of(a);
    let n: int = born(x, child_container(a.kind->XmlInsertChild_tag)).len() as int;
    assert(n + 1 < writes_of(a).len() && writes_of(a)[n + 1] == (WriteV::Home {
        child: x,
        parent: a.target,
    })) by {
        reveal(writes_of);
    }
    assert(trace_of(writes_of(a)[n + 1]) == Some(TraceV::Born(x, a.target)));
    assert(wrote(a, TraceV::Born(x, a.target)));
}

/// What an op that can apply writes goes into what is there.
proof fn lemma_gist_admits(t: TreeV, a: OpV, i: int)
    requires
        t.plain().takes(a) || t.plain().takes_settling(a),
        0 <= i < t.gist().writes_for(a).len(),
        !(a.kind is XmlReveal),
    ensures
        t.gist().tree.admits(t.gist().writes_for(a)[i]),
{
    let p = t.plain();
    let g = t.gist();
    crate::gist::lemma_gist_doms(t);
    assert(p.maps.dom() =~= t.maps.dom());
    assert(p.lists.dom() =~= t.lists.dom());
    assert(p.texts.dom() =~= t.texts.dom());
    match a.kind {
        OpKindV::XmlInsertChild { tag, .. } => {
            let b = born(child_of(a), child_container(tag));
            if i < b.len() {
                assert(g.writes_for(a)[i] == b[i]);
            }
        },
        OpKindV::XmlMove { .. } => {},
        OpKindV::ListDelete { .. } => {},
        _ => {
            crate::commute::lemma_admitted(p, a, None, i + 1);
            assert(effect(a, None)[i + 1] == g.writes_for(a)[i]);
        },
    }
}

/// What an op does to a gist does not depend on an op before it.
proof fn lemma_same_step(
    c: ClientId,
    pool: Set<OpV>,
    q: Seq<OpV>,
    a: OpV,
    b: OpV,
    rank: spec_fn(ElementId) -> nat,
)
    requires
        authored_alone(pool),
        ranked(pool, rank),
        runs_in_turn(c, pool, q),
        runs_in_turn(c, pool, q.push(a)),
        pool.contains(b),
        grown(DocV::empty(c).ran(q).tree.plain(), traces(q), rank),
        grown(DocV::empty(c).ran(q).applied(a).tree.plain(), traces(q.push(a)), rank),
        holds_more(
            DocV::empty(c).ran(q).tree.plain(),
            DocV::empty(c).ran(q).applied(a).tree.plain(),
        ),
        steady(
            DocV::empty(c).ran(q).tree.plain(),
            DocV::empty(c).ran(q).applied(a).tree.plain(),
        ),
        has_needs(DocV::empty(c).ran(q).tree.plain(), b),
    ensures
        ({
            let g = DocV::empty(c).ran(q).tree.gist();
            let h = DocV::empty(c).ran(q).applied(a).tree.gist();
            &&& h.writes_for(b) == g.writes_for(b)
            &&& edits(b.kind) is Children ==> link_of(h.tree.parents, b.target) == link_of(
                g.tree.parents,
                b.target,
            )
        }),
{
    let t = DocV::empty(c).ran(q).tree;
    let u = DocV::empty(c).ran(q).applied(a).tree;
    let p = t.plain();
    let v = u.plain();
    crate::gist::lemma_gist_doms(t);
    crate::gist::lemma_gist_doms(u);
    if edits(b.kind) is Children {
        assert(p.lists.dom().contains(b.target)) by {
            reveal(has_needs);
        }
        lemma_children_target(c, pool, q, b, p, rank);
        assert(v.lists.dom().contains(b.target)) by {
            reveal(holds_more);
        }
        lemma_children_target(c, pool, q.push(a), b, v, rank);
        assert(t.parents == p.parents && u.parents == v.parents);
        assert(t.placements == p.placements && u.placements == v.placements);
        assert(link_of(u.gist().tree.parents, b.target) == link_of(
            t.gist().tree.parents,
            b.target,
        ));
    }
    if let OpKindV::XmlMove { node, .. } = b.kind {
        assert(p.xml_elements.dom() =~= t.xml_elements.dom());
        assert(v.xml_elements.dom() =~= u.xml_elements.dom());
        assert(p.texts.dom() =~= t.texts.dom());
        assert(v.texts.dom() =~= u.texts.dom());
        reveal(holds_more);
        assert(t.node_handle(node) is Some) by {
            reveal(has_needs);
            reveal(seated);
            let r = choose|r: Placement| #[trigger]
                p.placement_index.dom().contains(r) && p.placement_index[r] == node;
            assert(p.placements.dom().contains(node));
            assert(p.node_handle(node) is Some);
        }
        if t.texts.dom().contains(node) && u.xml_elements.dom().contains(node) {
            reveal(known);
            assert(traces(q).contains(TraceV::Text(node)));
            assert(traces(q.push(a)).contains(TraceV::XmlElement(node)));
            let x = lemma_tracer(c, pool, q, TraceV::Text(node));
            let y = lemma_tracer(c, pool, q.push(a), TraceV::XmlElement(node));
            lemma_pool_tagged(pool, y, x, node);
        }
    }
}

/// Two ops that can both apply may do so in either order, and neither keeps the other from
/// applying.
pub(crate) proof fn lemma_pair(c: ClientId, pool: Set<OpV>, q: Seq<OpV>, a: OpV, b: OpV)
    requires
        authored_alone(pool),
        runs_in_turn(c, pool, q),
        pool.contains(a),
        pool.contains(b),
        a != b,
        !q.contains(a),
        !q.contains(b),
        DocV::empty(c).ran(q).tree.ready(a),
        DocV::empty(c).ran(q).tree.ready(b),
    ensures
        DocV::empty(c).ran(q.push(a)).tree.ready(b),
        crate::authored::same_standing(
            DocV::empty(c).ran(q.push(a).push(b)),
            DocV::empty(c).ran(q.push(b).push(a)),
        ),
{
    let rank = lemma_pool_rank(pool);
    let d = DocV::empty(c).ran(q);
    let t = d.tree;
    lemma_grown(c, pool, q, rank);
    lemma_ready_after(c, pool, q, a, b, rank);
    lemma_ready_after(c, pool, q, b, a, rank);
    let qa = q.push(a);
    let qb = q.push(b);
    lemma_grow(c, pool, q, a, rank);
    lemma_grow(c, pool, q, b, rank);
    crate::authored::lemma_runs_push(c, pool, q, a);
    crate::authored::lemma_runs_push(c, pool, q, b);
    lemma_not_pushed(q, a, b);
    lemma_not_pushed(q, b, a);
    lemma_grow(c, pool, qa, b, rank);
    lemma_grow(c, pool, qb, a, rank);
    assert(qa.push(b).drop_last() =~= qa);
    assert(qb.push(a).drop_last() =~= qb);
    lemma_same_step(c, pool, q, a, b, rank);
    lemma_same_step(c, pool, q, b, a, rank);
    let g = t.gist();
    let wa = g.writes_for(a);
    let wb = g.writes_for(b);
    lemma_lands(c, pool, q, a, t, rank);
    lemma_lands(c, pool, q, b, t, rank);
    lemma_pool_op(pool, a);
    lemma_pool_op(pool, b);
    assert forall|i: int| 0 <= i < wa.len() implies g.tree.admits(#[trigger] wa[i]) by {
        lemma_gist_admits(t, a, i);
    }
    assert forall|i: int| 0 <= i < wb.len() implies g.tree.admits(#[trigger] wb[i]) by {
        lemma_gist_admits(t, b, i);
    }
    assert forall|i: int, j: int| 0 <= i < wa.len() && 0 <= j < wb.len() implies apart(
        #[trigger] wa[i],
        #[trigger] wb[j],
    ) by {
        lemma_gist_apart(c, pool, q, a, b, t.plain(), g, i, j);
    }
    crate::commute::lemma_runs_commute(g.tree, wa, wb);
    lemma_pool_pair(pool, a, b);
    assert(g.after(a).after(b).log =~= g.after(b).after(a).log);
    assert(g.after(a).after(b) == g.after(b).after(a));
    lemma_swapped(d, a, b);
}

proof fn lemma_not_pushed(q: Seq<OpV>, a: OpV, b: OpV)
    requires
        !q.contains(b),
        a != b,
    ensures
        !q.push(a).contains(b),
{
    if q.push(a).contains(b) {
        let i: int = q.push(a).index_of(b);
        assert(q[i] == b);
    }
}

/// One op can still apply after another that could.
proof fn lemma_ready_after(
    c: ClientId,
    pool: Set<OpV>,
    q: Seq<OpV>,
    a: OpV,
    b: OpV,
    rank: spec_fn(ElementId) -> nat,
)
    requires
        authored_alone(pool),
        ranked(pool, rank),
        runs_in_turn(c, pool, q),
        pool.contains(a),
        pool.contains(b),
        !q.contains(a),
        DocV::empty(c).ran(q).tree.ready(a),
        DocV::empty(c).ran(q).tree.ready(b),
    ensures
        DocV::empty(c).ran(q.push(a)).tree.ready(b),
        has_needs(DocV::empty(c).ran(q).tree.plain(), b),
        known(DocV::empty(c).ran(q).tree.plain(), traces(q)),
{
    let t = DocV::empty(c).ran(q).tree;
    let u = DocV::empty(c).ran(q).applied(a).tree;
    lemma_grown(c, pool, q, rank);
    lemma_grow(c, pool, q, a, rank);
    lemma_pool_op(pool, b);
    lemma_ready_needs(t, traces(q), rank, b);
    lemma_ready_needs(u, traces(q.push(a)), rank, b);
    lemma_needs_plain(t, b);
    lemma_needs_plain(u, b);
    lemma_needs_more(t.plain(), u.plain(), b);
    assert(q.push(a).drop_last() =~= q);
}

proof fn lemma_swapped(d: DocV, a: OpV, b: OpV)
    requires
        d.applied(a).applied(b).tree.gist() == d.applied(b).applied(a).tree.gist(),
    ensures
        crate::authored::same_standing(d.applied(a).applied(b), d.applied(b).applied(a)),
{
    let m = d.applied(a).applied(b);
    let n = d.applied(b).applied(a);
    assert(m.seen =~= n.seen);
    assert(m.zone_clocks =~= n.zone_clocks);
}

/// Runs of one standing let the same ops follow, and stay of one standing.
pub(crate) proof fn lemma_congruent(
    c: ClientId,
    pool: Set<OpV>,
    s: Seq<OpV>,
    q: Seq<OpV>,
    a: OpV,
)
    requires
        authored_alone(pool),
        runs_in_turn(c, pool, s),
        runs_in_turn(c, pool, q),
        crate::authored::same_standing(DocV::empty(c).ran(s), DocV::empty(c).ran(q)),
        pool.contains(a),
    ensures
        DocV::empty(c).ran(s).tree.ready(a) == DocV::empty(c).ran(q).tree.ready(a),
        DocV::empty(c).ran(s).tree.ready(a) && !s.contains(a) && !q.contains(a)
            ==> crate::authored::same_standing(
            DocV::empty(c).ran(s.push(a)),
            DocV::empty(c).ran(q.push(a)),
        ),
{
    let rank = lemma_pool_rank(pool);
    let t = DocV::empty(c).ran(s).tree;
    let u = DocV::empty(c).ran(q).tree;
    lemma_grown(c, pool, s, rank);
    lemma_grown(c, pool, q, rank);
    lemma_pool_op(pool, a);
    lemma_ready_needs(t, traces(s), rank, a);
    lemma_ready_needs(u, traces(q), rank, a);
    if t.ready(a) && !s.contains(a) && !q.contains(a) {
        lemma_grow(c, pool, s, a, rank);
        lemma_grow(c, pool, q, a, rank);
        assert(s.push(a).drop_last() =~= s);
        assert(q.push(a).drop_last() =~= q);
    }
}

} // verus!
