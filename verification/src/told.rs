//! States that authored ops lead to tell where their nodes stand: the sequences hold every
//! placed node where it is placed, and birth places tell what nodes were created under.

use crate::annot::Placement;
use crate::authored::{
    authored_alone, born_in, edits, leaves, lemma_other, lemma_pool_born, lemma_pool_link,
    lemma_pool_op, lemma_runs_prefix, lemma_tracer, ranked, runs_in_turn, trace_of, traced, wrote,
    writes_of, TraceV,
};
use crate::clientid::ClientId;
use crate::commute::{
    apart, body, born, child_container, effect, lemma_writes_concat, lemma_writes_one,
    lemma_writes_two, WriteV,
};
use crate::doc::DocV;
use crate::element::ElementV;
use crate::elementid::ElementId;
use crate::gist::{child_of, lemma_gist_doms, place_of, GistV};
use crate::grown::{
    grown, has_children, has_needs, hung_in, is_held, known, lemma_children_target,
    lemma_edit_writes, lemma_grow, lemma_grown, lemma_leaves_born, lemma_place_fresh,
    lemma_ready_needs, lemma_replayed, lemma_static, lemma_traces_push, seated, traces,
};
use crate::identity::spec_born_at;
use crate::list_state::as_written;
use crate::op::{OpKindV, OpV};
use crate::order::{in_order, lemma_in_order};
use crate::rebuild::birth_of;
use crate::restore_laws::lemma_sorted;
use crate::stamp::Stamp;
use crate::state::is_spelled;
use crate::table::{lemma_ordered_exists, ordered};
use crate::tree::{or_insert, TreeV};
use crate::treemove::{link_of, MovesV};
use crate::xml::node_children_id;
use vstd::prelude::*;

verus! {

/// Whether a node owns the sequence that a place is in.
pub(crate) open spec fn owns(g: TreeV, k: Set<TraceV>, p: Placement, o: ElementId) -> bool {
    &&& g.is_node(o)
    &&& p.list == node_children_id(o)
    &&& link_of(g.parents, p.list) == Some(o)
    &&& k.contains(TraceV::Link(p.list, o))
}

pub(crate) open spec fn owned(g: TreeV, k: Set<TraceV>, p: Placement) -> bool {
    exists|o: ElementId| #[trigger] owns(g, k, p, o)
}

/// Whether a node was born at a place.
pub(crate) open spec fn born_there(g: TreeV, n: ElementId, p: Placement) -> bool {
    g.placement_index.dom().contains(p) && g.placement_index[p] == n && spec_born_at(
        p.list,
        p.stamp,
        n,
    )
}

pub(crate) open spec fn has_birth(g: TreeV, n: ElementId) -> bool {
    exists|p: Placement| #[trigger] born_there(g, n, p)
}

/// Whether a held place is in its sequence, with its node unless it was deleted.
pub(crate) open spec fn held_right(g: TreeV, p: Placement) -> bool {
    &&& g.lists.dom().contains(p.list)
    &&& g.lists[p.list].places.dom().contains(p.stamp)
    &&& g.lists[p.list].items.dom().contains(p.stamp) ==> g.child_at(p) == Some(
        g.placement_index[p],
    )
}

/// Whether a birth place tells what its node was created under.
pub(crate) open spec fn based_right(g: TreeV, p: Placement) -> bool {
    let n = g.placement_index[p];
    spec_born_at(p.list, p.stamp, n) ==> g.moves.base.dom().contains(n) && p.list
        == node_children_id(g.moves.base[n])
}

/// Whether a gist tells where nodes stand.
#[verifier::opaque]
pub(crate) open spec fn tells(g: TreeV, k: Set<TraceV>) -> bool {
    &&& forall|p: Placement| #[trigger]
        g.placement_index.dom().contains(p) ==> held_right(g, p) && owned(g, k, p) && has_birth(
            g,
            g.placement_index[p],
        ) && based_right(g, p) && k.contains(TraceV::Item(p.list, p.stamp)) && born_in(
            k,
            g.placement_index[p],
        )
    &&& forall|p: Placement| #[trigger]
        g.child_at(p) is Some ==> g.placement_index.dom().contains(p) && g.placement_index[p]
            == g.child_at(p)->Some_0
    &&& forall|x: ElementId| #[trigger]
        k.contains(TraceV::XmlElement(x)) ==> g.xml_elements.dom().contains(x)
    &&& forall|x: ElementId| #[trigger]
        k.contains(TraceV::XmlFragment(x)) ==> g.xml_fragments.dom().contains(x)
    &&& forall|x: ElementId| #[trigger]
        g.moves.base.dom().contains(x) ==> g.parents.dom().contains(x) || is_held(g, x)
}

proof fn lemma_held_more(g: TreeV, h: TreeV, n: ElementId)
    requires
        is_held(g, n),
        forall|p: Placement| #[trigger]
            g.placement_index.dom().contains(p) ==> h.placement_index.dom().contains(p)
                && h.placement_index[p] == g.placement_index[p],
    ensures
        is_held(h, n),
{
    let p = choose|p: Placement| #[trigger]
        g.placement_index.dom().contains(p) && g.placement_index[p] == n;
    assert(h.placement_index.dom().contains(p) && h.placement_index[p] == n);
}

/// Whether a write places nothing, and hangs nothing anew that nodes stand by.
pub(crate) open spec fn places_none(g: TreeV, w: WriteV) -> bool {
    match w {
        WriteV::Hold { .. } => false,
        WriteV::Base { .. } => false,
        WriteV::Home { .. } => false,
        WriteV::ListPut { value, .. } => value is Scalar,
        WriteV::Link { child, parent } => forall|p: Placement| #[trigger]
            g.placement_index.dom().contains(p) ==> child != g.placement_index[p] && (child
                == p.list ==> link_of(g.parents, child) == Some(parent)),
        _ => true,
    }
}

proof fn lemma_owned_more(g: TreeV, h: TreeV, k: Set<TraceV>, n: Set<TraceV>, p: Placement)
    requires
        owned(g, k, p),
        link_of(h.parents, p.list) == link_of(g.parents, p.list),
        g.xml_elements.dom().subset_of(h.xml_elements.dom()),
        g.xml_fragments.dom().subset_of(h.xml_fragments.dom()),
        k.subset_of(n),
    ensures
        owned(h, n, p),
{
    let o = choose|o: ElementId| #[trigger] owns(g, k, p, o);
    assert(owns(h, n, p, o));
}

proof fn lemma_birth_more(g: TreeV, h: TreeV, n: ElementId)
    requires
        has_birth(g, n),
        forall|p: Placement| #[trigger]
            g.placement_index.dom().contains(p) ==> h.placement_index.dom().contains(p)
                && h.placement_index[p] == g.placement_index[p],
    ensures
        has_birth(h, n),
{
    let p = choose|p: Placement| #[trigger] born_there(g, n, p);
    assert(born_there(h, n, p));
}

/// A write that places nothing leaves told what was.
proof fn lemma_tells_write(g: TreeV, k: Set<TraceV>, w: WriteV)
    requires
        tells(g, k),
        places_none(g, w),
    ensures
        tells(g.write(w), k),
        g.write(w).placement_index == g.placement_index,
{
    reveal(tells);
    let h = g.write(w);
    assert(h.placement_index =~= g.placement_index);
    assert forall|p: Placement| #[trigger] h.placement_index.dom().contains(p) implies held_right(
        h,
        p,
    ) && owned(h, k, p) && has_birth(h, h.placement_index[p]) && based_right(h, p) && k.contains(
        TraceV::Item(p.list, p.stamp),
    ) && born_in(k, h.placement_index[p]) by {
        assert(g.placement_index.dom().contains(p));
        assert(held_right(g, p));
        lemma_owned_more(g, h, k, k, p);
        lemma_birth_more(g, h, g.placement_index[p]);
    }
    assert forall|p: Placement| #[trigger] h.child_at(p) is Some implies g.child_at(p)
        == h.child_at(p) by {
        if let WriteV::NewList { id } = w {
            assert(h.lists == or_insert(g.lists, id, crate::list_state::empty_list(id)));
        }
    }
    assert forall|p: Placement| #[trigger]
        h.child_at(p) is Some implies h.placement_index.dom().contains(p) && h.placement_index[p]
        == h.child_at(p)->Some_0 by {
        assert(g.child_at(p) is Some);
    }
    assert forall|x: ElementId| #[trigger]
        h.moves.base.dom().contains(x) implies h.parents.dom().contains(x) || is_held(h, x) by {
        if g.moves.base.dom().contains(x) && is_held(g, x) {
            lemma_held_more(g, h, x);
        }
    }
}

proof fn lemma_tells_writes(g: TreeV, k: Set<TraceV>, ws: Seq<WriteV>)
    requires
        tells(g, k),
        forall|i: int| 0 <= i < ws.len() ==> places_none(g, #[trigger] ws[i]),
        forall|p: Placement, i: int|
            #![trigger g.placement_index.dom().contains(p), ws[i]]
            g.placement_index.dom().contains(p) && 0 <= i < ws.len() ==> (
            ws[i] matches WriteV::Link { child, .. } ==> (child == p.list ==> trace_told(
                g,
                ws[i],
            ))),
    ensures
        tells(g.writes(ws), k),
        g.writes(ws).placement_index == g.placement_index,
        forall|p: Placement| #[trigger]
            g.placement_index.dom().contains(p) ==> link_of(g.writes(ws).parents, p.list)
                == link_of(g.parents, p.list),
    decreases ws.len(),
{
    if ws.len() > 0 {
        let h = ws.drop_last();
        let w = ws.last();
        assert forall|i: int| 0 <= i < h.len() implies places_none(g, #[trigger] h[i]) by {
            assert(h[i] == ws[i]);
        }
        assert forall|p: Placement, i: int|
            #![trigger g.placement_index.dom().contains(p), h[i]]
            g.placement_index.dom().contains(p) && 0 <= i < h.len() implies (
        h[i] matches WriteV::Link { child, .. } ==> (child == p.list ==> trace_told(g, h[i]))) by {
            assert(h[i] == ws[i]);
        }
        lemma_tells_writes(g, k, h);
        assert(ws[ws.len() - 1] == w);
        assert(places_none(g, w));
        let m = g.writes(h);
        assert(places_none(m, w));
        lemma_tells_write(m, k, w);
    }
}

/// Whether what a write links is linked so already.
spec fn trace_told(g: TreeV, w: WriteV) -> bool {
    w matches WriteV::Link { child, parent } ==> link_of(g.parents, child) == Some(parent)
}

/// A node put in a place that is new.
proof fn lemma_tells_place(
    g: TreeV,
    k: Set<TraceV>,
    n: Set<TraceV>,
    at: Placement,
    node: ElementId,
    put: WriteV,
    base: Option<ElementId>,
    h: TreeV,
)
    requires
        tells(g, k),
        k.subset_of(n),
        forall|x: ElementId| #[trigger]
            n.contains(TraceV::XmlElement(x)) ==> g.xml_elements.dom().contains(x),
        forall|x: ElementId| #[trigger]
            n.contains(TraceV::XmlFragment(x)) ==> g.xml_fragments.dom().contains(x),
        n.contains(TraceV::Item(at.list, at.stamp)),
        born_in(n, node),
        put matches WriteV::ListPut { list, id, value, anchor } && list == at.list && id == at.stamp
            && (value == ElementV::XmlElement(node) || value == ElementV::Text(node)),
        g.lists.dom().contains(at.list),
        !g.lists[at.list].places.dom().contains(at.stamp),
        owned(g, n, at),
        match base {
            Some(o) => {
                &&& h == g.write(WriteV::Hold { at, node }).write(put).write(
                    WriteV::Base { child: node, parent: o },
                )
                &&& at.list == node_children_id(o)
                &&& spec_born_at(at.list, at.stamp, node)
                &&& forall|p: Placement| #[trigger]
                    g.placement_index.dom().contains(p) ==> g.placement_index[p] != node
            },
            None => {
                &&& h == g.write(WriteV::Hold { at, node }).write(put)
                &&& !spec_born_at(at.list, at.stamp, node)
                &&& has_birth(g, node)
            },
        },
    ensures
        tells(h, n),
{
    reveal(tells);
    assert(!g.placement_index.dom().contains(at)) by {
        if g.placement_index.dom().contains(at) {
            assert(held_right(g, at));
        }
    }
    assert(h.placement_index =~= g.placement_index.insert(at, node));
    let l = h.lists[at.list];
    assert(l.items.dom().contains(at.stamp));
    assert forall|p: Placement| #[trigger] h.child_at(p) == if p == at {
        Some(node)
    } else {
        g.child_at(p)
    } by {}
    assert(has_birth(h, node)) by {
        if base is Some {
            assert(born_there(h, node, at));
        } else {
            lemma_birth_more(g, h, node);
        }
    }
    assert forall|p: Placement| #[trigger] h.placement_index.dom().contains(p) implies held_right(
        h,
        p,
    ) && owned(h, n, p) && has_birth(h, h.placement_index[p]) && based_right(h, p) && n.contains(
        TraceV::Item(p.list, p.stamp),
    ) && born_in(n, h.placement_index[p]) by {
        if p == at {
            lemma_owned_more(g, h, n, n, p);
        } else {
            assert(g.placement_index.dom().contains(p));
            assert(held_right(g, p));
            lemma_owned_more(g, h, k, n, p);
            lemma_birth_more(g, h, g.placement_index[p]);
            let m = g.placement_index[p];
            let x = choose|x: ElementId| #[trigger] k.contains(TraceV::Born(m, x));
            assert(n.contains(TraceV::Born(m, x)));
        }
    }
    assert forall|p: Placement| #[trigger]
        h.child_at(p) is Some implies h.placement_index.dom().contains(p) && h.placement_index[p]
        == h.child_at(p)->Some_0 by {
        if p != at {
            assert(g.child_at(p) is Some);
        }
    }
    assert forall|x: ElementId| #[trigger]
        h.moves.base.dom().contains(x) implies h.parents.dom().contains(x) || is_held(h, x) by {
        if x == node {
            assert(h.placement_index.dom().contains(at) && h.placement_index[at] == node);
        } else if is_held(g, x) {
            lemma_held_more(g, h, x);
        }
    }
}

/// More traces of what is not a node tell no less.
proof fn lemma_tells_more(g: TreeV, k: Set<TraceV>, n: Set<TraceV>)
    requires
        tells(g, k),
        k.subset_of(n),
        forall|x: ElementId| #[trigger]
            n.contains(TraceV::XmlElement(x)) ==> g.xml_elements.dom().contains(x),
        forall|x: ElementId| #[trigger]
            n.contains(TraceV::XmlFragment(x)) ==> g.xml_fragments.dom().contains(x),
    ensures
        tells(g, n),
{
    reveal(tells);
    assert forall|p: Placement| #[trigger] g.placement_index.dom().contains(p) implies owned(
        g,
        n,
        p,
    ) && born_in(n, g.placement_index[p]) by {
        lemma_owned_more(g, g, k, n, p);
        let m = g.placement_index[p];
        let x = choose|x: ElementId| #[trigger] k.contains(TraceV::Born(m, x));
        assert(n.contains(TraceV::Born(m, x)));
    }
}

// --- ops ---

/// The writes of an op do to a gist's links nothing that nodes would notice.
proof fn lemma_links_keep(
    c: ClientId,
    pool: Set<OpV>,
    q: Seq<OpV>,
    a: OpV,
    g: GistV,
    i: int,
    p: Placement,
)
    requires
        authored_alone(pool),
        runs_in_turn(c, pool, q),
        pool.contains(a),
        !q.contains(a),
        tells(g.tree, traces(q)),
        0 <= i < g.writes_for(a).len(),
        g.writes_for(a)[i] is Link,
        g.tree.placement_index.dom().contains(p),
    ensures
        g.writes_for(a)[i]->Link_child != g.tree.placement_index[p],
        g.writes_for(a)[i]->Link_child == p.list ==> trace_told(g.tree, g.writes_for(a)[i]),
{
    reveal(tells);
    lemma_pool_op(pool, a);
    let w = g.writes_for(a)[i];
    let j = lemma_static(g, a, i);
    assert(writes_of(a)[j] == w);
    let child = w->Link_child;
    let parent = w->Link_parent;
    assert(trace_of(writes_of(a)[j]) == Some(TraceV::Link(child, parent)));
    assert(wrote(a, TraceV::Link(child, parent)));
    let n = g.tree.placement_index[p];
    let l = choose|l: ElementId| #[trigger] traces(q).contains(TraceV::Born(n, l));
    let b = lemma_tracer(c, pool, q, TraceV::Born(n, l));
    lemma_pool_born(pool, b, a, n, l);
    assert(leaves(a, TraceV::Link(child, parent)));
    let o = choose|o: ElementId| #[trigger] owns(g.tree, traces(q), p, o);
    let x = lemma_other(c, pool, q, a, j, TraceV::Link(p.list, o));
    assert(apart(w, x));
}

/// What an op makes of elements and fragments is there after it.
proof fn lemma_made_nodes(g: GistV, a: OpV, x: ElementId)
    requires
        !(a.kind is XmlReveal),
    ensures
        leaves(a, TraceV::XmlElement(x)) ==> g.after(a).tree.xml_elements.dom().contains(x),
        leaves(a, TraceV::XmlFragment(x)) ==> g.after(a).tree.xml_fragments.dom().contains(x),
{
    reveal(writes_of);
    let ws = g.writes_for(a);
    if leaves(a, TraceV::XmlElement(x)) {
        let j = choose|j: int|
            0 <= j < writes_of(a).len() && trace_of(#[trigger] writes_of(a)[j]) == Some(
                TraceV::XmlElement(x),
            );
        lemma_written_there(g, a, j);
        lemma_there(g.tree, ws, j - 1);
    }
    if leaves(a, TraceV::XmlFragment(x)) {
        let j = choose|j: int|
            0 <= j < writes_of(a).len() && trace_of(#[trigger] writes_of(a)[j]) == Some(
                TraceV::XmlFragment(x),
            );
        lemma_written_there(g, a, j);
        lemma_there(g.tree, ws, j - 1);
    }
}

proof fn lemma_written_there(g: GistV, a: OpV, j: int)
    requires
        !(a.kind is XmlReveal),
        0 <= j < writes_of(a).len(),
        writes_of(a)[j] is NewElement || writes_of(a)[j] is NewFragment,
    ensures
        1 <= j <= g.writes_for(a).len(),
        g.writes_for(a)[j - 1] == writes_of(a)[j],
{
    reveal(writes_of);
    match a.kind {
        OpKindV::XmlInsertChild { tag, .. } => {
            let b = born(child_of(a), child_container(tag));
            if 1 <= j <= b.len() {
                assert(writes_of(a)[j] == b[j - 1]);
                assert(g.writes_for(a)[j - 1] == b[j - 1]);
            }
        },
        OpKindV::XmlMove { .. } => {},
        _ => {
            lemma_edit_writes(a, j);
        },
    }
}

proof fn lemma_there(t: TreeV, ws: Seq<WriteV>, i: int)
    requires
        0 <= i < ws.len(),
    ensures
        ws[i] matches WriteV::NewElement { id, .. } ==> t.writes(ws).xml_elements.dom().contains(id),
        ws[i] matches WriteV::NewFragment { id } ==> t.writes(ws).xml_fragments.dom().contains(id),
    decreases ws.len(),
{
    if i < ws.len() - 1 {
        lemma_there(t, ws.drop_last(), i);
    }
}

/// What an edit puts into a sequence is a scalar.
proof fn lemma_scalar_puts(a: OpV, i: int)
    requires
        !(a.kind is XmlInsertChild),
        !(a.kind is XmlMove),
        !(a.kind is XmlReveal),
        0 <= i < body(a.target, a.kind, a.stamp, a.id.client, None).len(),
    ensures
        body(a.target, a.kind, a.stamp, a.id.client, None)[i] matches WriteV::ListPut {
            value,
            ..
        } ==> value is Scalar,
{
}

/// Writes that put nothing into a sequence and take nothing out keep it.
pub(crate) proof fn lemma_list_kept(t: TreeV, ws: Seq<WriteV>, l: ElementId)
    requires
        t.lists.dom().contains(l),
        forall|i: int| 0 <= i < ws.len() ==> !(#[trigger] ws[i] is ListPut) && !(ws[i] is ListDrop),
    ensures
        t.writes(ws).lists.dom().contains(l),
        t.writes(ws).lists[l] == t.lists[l],
    decreases ws.len(),
{
    if ws.len() > 0 {
        let h = ws.drop_last();
        assert forall|i: int| 0 <= i < h.len() implies !(#[trigger] h[i] is ListPut) && !(
        h[i] is ListDrop) by {
            assert(h[i] == ws[i]);
        }
        lemma_list_kept(t, h, l);
        assert(ws[ws.len() - 1] == ws.last());
    }
}

proof fn lemma_link_kept(t: TreeV, ws: Seq<WriteV>, l: ElementId)
    requires
        forall|i: int|
            0 <= i < ws.len() ==> !(#[trigger] ws[i] is Home) && (
            ws[i] matches WriteV::Link { child, .. } ==> child != l),
    ensures
        link_of(t.writes(ws).parents, l) == link_of(t.parents, l),
    decreases ws.len(),
{
    if ws.len() > 0 {
        let h = ws.drop_last();
        assert forall|i: int| 0 <= i < h.len() implies !(#[trigger] h[i] is Home) && (
        h[i] matches WriteV::Link { child, .. } ==> child != l) by {
            assert(h[i] == ws[i]);
        }
        lemma_link_kept(t, h, l);
        assert(ws[ws.len() - 1] == ws.last());
    }
}

/// The sequence an op places a node in is a node's own.
proof fn lemma_target_owned(
    c: ClientId,
    pool: Set<OpV>,
    q: Seq<OpV>,
    a: OpV,
    t: TreeV,
    rank: spec_fn(ElementId) -> nat,
)
    requires
        authored_alone(pool),
        ranked(pool, rank),
        runs_in_turn(c, pool, q),
        pool.contains(a),
        grown(t.plain(), traces(q), rank),
        tells(t.gist().tree, traces(q)),
        edits(a.kind) is Children,
        t.lists.dom().contains(a.target),
    ensures
        owned(t.gist().tree, traces(q), place_of(a)),
        link_of(t.gist().tree.parents, a.target) is Some,
        a.target == node_children_id(link_of(t.gist().tree.parents, a.target)->Some_0),
{
    let p = t.plain();
    let g = t.gist().tree;
    let k = traces(q);
    lemma_gist_doms(t);
    assert(p.lists.dom() =~= t.lists.dom());
    lemma_children_target(c, pool, q, a, p, rank);
    assert(t.parents == p.parents && t.placements == p.placements);
    let o = p.parents[a.target];
    assert(link_of(g.parents, a.target) == Some(o));
    assert(k.contains(TraceV::Link(a.target, o))) by {
        reveal(known);
    }
    let b = lemma_tracer(c, pool, q, TraceV::Link(a.target, o));
    lemma_pool_link(pool, b, a, a.target, o);
    assert(g.is_node(o)) by {
        reveal(tells);
        let i: int = q.index_of(b);
        if leaves(b, TraceV::XmlElement(o)) {
            assert(leaves(q[i], TraceV::XmlElement(o)));
            assert(traced(q, TraceV::XmlElement(o)));
            assert(k.contains(TraceV::XmlElement(o)));
        } else {
            assert(leaves(q[i], TraceV::XmlFragment(o)));
            assert(traced(q, TraceV::XmlFragment(o)));
            assert(k.contains(TraceV::XmlFragment(o)));
        }
    }
    assert(owns(g, k, place_of(a), o));
}

/// The nodes traced after an op are there after it.
proof fn lemma_nodes_there(q: Seq<OpV>, a: OpV, g: GistV, u: TreeV)
    requires
        !(a.kind is XmlReveal),
        tells(u, traces(q)),
        u.xml_elements == g.after(a).tree.xml_elements,
        u.xml_fragments == g.after(a).tree.xml_fragments,
    ensures
        traces(q).subset_of(traces(q.push(a))),
        forall|x: ElementId| #[trigger]
            traces(q.push(a)).contains(TraceV::XmlElement(x)) ==> u.xml_elements.dom().contains(x),
        forall|x: ElementId| #[trigger]
            traces(q.push(a)).contains(TraceV::XmlFragment(x)) ==> u.xml_fragments.dom().contains(x),
{
    reveal(tells);
    let n = traces(q.push(a));
    lemma_traces_push(q, a);
    assert forall|x: ElementId| #[trigger] n.contains(TraceV::XmlElement(x))
        implies u.xml_elements.dom().contains(x) by {
        lemma_made_nodes(g, a, x);
        if traces(q).contains(TraceV::XmlElement(x)) {
        }
    }
    assert forall|x: ElementId| #[trigger] n.contains(TraceV::XmlFragment(x))
        implies u.xml_fragments.dom().contains(x) by {
        lemma_made_nodes(g, a, x);
        if traces(q).contains(TraceV::XmlFragment(x)) {
        }
    }
}

/// An op leaves a gist that tells.
proof fn lemma_tells_step(
    c: ClientId,
    pool: Set<OpV>,
    q: Seq<OpV>,
    a: OpV,
    t: TreeV,
    rank: spec_fn(ElementId) -> nat,
)
    requires
        authored_alone(pool),
        ranked(pool, rank),
        runs_in_turn(c, pool, q),
        pool.contains(a),
        !q.contains(a),
        grown(t.plain(), traces(q), rank),
        tells(t.gist().tree, traces(q)),
        t.ready(a),
    ensures
        tells(t.gist().after(a).tree, traces(q.push(a))),
{
    let g = t.gist();
    let k = traces(q);
    let n = traces(q.push(a));
    let ws = g.writes_for(a);
    lemma_pool_op(pool, a);
    if edits(a.kind) is Children {
        lemma_tells_child(c, pool, q, a, t, rank);
    } else {
        assert forall|i: int| 0 <= i < ws.len() implies places_none(g.tree, #[trigger] ws[i]) by {
            lemma_scalar_puts(a, i);
            let j = lemma_static(g, a, i);
            lemma_edit_writes(a, i + 1);
            assert(effect(a, None)[i + 1] == ws[i]);
            if ws[i] is Link {
                assert forall|p: Placement| #[trigger]
                    g.tree.placement_index.dom().contains(p) implies ws[i]->Link_child
                    != g.tree.placement_index[p] && (ws[i]->Link_child == p.list ==> link_of(
                    g.tree.parents,
                    ws[i]->Link_child,
                ) == Some(ws[i]->Link_parent)) by {
                    lemma_links_keep(c, pool, q, a, g, i, p);
                }
            }
        }
        assert forall|p: Placement, i: int|
            #![trigger g.tree.placement_index.dom().contains(p), ws[i]]
            g.tree.placement_index.dom().contains(p) && 0 <= i < ws.len() implies (
        ws[i] matches WriteV::Link { child, .. } ==> (child == p.list ==> trace_told(
            g.tree,
            ws[i],
        ))) by {
            if ws[i] is Link {
                lemma_links_keep(c, pool, q, a, g, i, p);
            }
        }
        lemma_tells_writes(g.tree, k, ws);
        let u = g.tree.writes(ws);
        lemma_nodes_there(q, a, g, u);
        lemma_tells_more(u, k, n);
    }
}

proof fn lemma_tells_child(
    c: ClientId,
    pool: Set<OpV>,
    q: Seq<OpV>,
    a: OpV,
    t: TreeV,
    rank: spec_fn(ElementId) -> nat,
)
    requires
        authored_alone(pool),
        ranked(pool, rank),
        runs_in_turn(c, pool, q),
        pool.contains(a),
        !q.contains(a),
        grown(t.plain(), traces(q), rank),
        tells(t.gist().tree, traces(q)),
        t.ready(a),
        edits(a.kind) is Children,
    ensures
        tells(t.gist().after(a).tree, traces(q.push(a))),
{
    let p = t.plain();
    let g = t.gist();
    let k = traces(q);
    let n = traces(q.push(a));
    let at = place_of(a);
    lemma_pool_op(pool, a);
    lemma_gist_doms(t);
    lemma_traces_push(q, a);
    lemma_target_owned(c, pool, q, a, t, rank);
    lemma_place_fresh(c, pool, q, a);
    assert(!g.tree.lists[a.target].places.dom().contains(a.stamp)) by {
        reveal(known);
        assert(p.lists[a.target].places == t.lists[a.target].places);
        assert(p.lists.dom() =~= t.lists.dom());
        if p.lists[a.target].places.dom().contains(a.stamp) {
            assert(k.contains(TraceV::Item(a.target, a.stamp)));
        }
    }
    lemma_leaves_item(a);
    match a.kind {
        OpKindV::XmlInsertChild { tag, anchor } => {
            let x = child_of(a);
            let cont = child_container(tag);
            let b = born(x, cont);
            let o = link_of(g.tree.parents, a.target)->Some_0;
            let hold = WriteV::Hold { at, node: x };
            let put = WriteV::ListPut {
                list: a.target,
                id: a.stamp,
                value: cont.handle(x),
                anchor,
            };
            let base = WriteV::Base { child: x, parent: o };
            let ws = g.writes_for(a);
            assert(ws =~= b + (seq![hold, put] + seq![base]));
            lemma_writes_concat(g.tree, b, seq![hold, put] + seq![base]);
            let m = g.tree.writes(b);
            lemma_writes_concat(m, seq![hold, put], seq![base]);
            lemma_writes_two(m, hold, put);
            lemma_writes_one(m.write(hold).write(put), base);
            let h = m.write(hold).write(put).write(base);
            assert(g.after(a).tree == h);
            assert forall|i: int| 0 <= i < b.len() implies places_none(g.tree, #[trigger] b[i]) by {
                assert(ws[i] == b[i]);
                if b[i] is Link {
                    assert forall|y: Placement| #[trigger]
                        g.tree.placement_index.dom().contains(y) implies b[i]->Link_child
                        != g.tree.placement_index[y] && (b[i]->Link_child == y.list ==> link_of(
                        g.tree.parents,
                        b[i]->Link_child,
                    ) == Some(b[i]->Link_parent)) by {
                        lemma_links_keep(c, pool, q, a, g, i, y);
                    }
                }
            }
            assert forall|y: Placement, i: int|
                #![trigger g.tree.placement_index.dom().contains(y), b[i]]
                g.tree.placement_index.dom().contains(y) && 0 <= i < b.len() implies (
            b[i] matches WriteV::Link { child, .. } ==> (child == y.list ==> trace_told(
                g.tree,
                b[i],
            ))) by {
                assert(ws[i] == b[i]);
                if b[i] is Link {
                    lemma_links_keep(c, pool, q, a, g, i, y);
                }
            }
            lemma_tells_writes(g.tree, k, b);
            lemma_nodes_there(q, a, g, m);
            lemma_list_kept(g.tree, b, a.target);
            lemma_link_kept(g.tree, b, a.target);
            lemma_doms_writes(g.tree, b);
            lemma_owned_more(g.tree, m, k, n, at);
            lemma_leaves_born(a);
            assert(n.contains(TraceV::Born(x, a.target)));
            assert forall|y: Placement| #[trigger]
                m.placement_index.dom().contains(y) implies m.placement_index[y] != x by {
                reveal(tells);
                assert(g.tree.placement_index.dom().contains(y));
                if g.tree.placement_index[y] == x {
                    let l = choose|l: ElementId| #[trigger] k.contains(TraceV::Born(x, l));
                    let z = lemma_tracer(c, pool, q, TraceV::Born(x, l));
                    lemma_pool_born(pool, z, a, x, l);
                }
            }
            lemma_tells_place(m, k, n, at, x, put, Some(o), h);
        },
        OpKindV::XmlMove { node, anchor } => {
            assert(has_birth(g.tree, node) && g.tree.node_handle(node) is Some && born_in(k, node))
                by {
                lemma_ready_needs(t, k, rank, a);
                reveal(has_needs);
                let y = choose|y: Placement| #[trigger]
                    g.tree.placement_index.dom().contains(y) && g.tree.placement_index[y] == node;
                reveal(tells);
                assert(p.placement_index == g.tree.placement_index);
                reveal(seated);
                assert(p.placement_index.dom().contains(y));
                assert(p.placements.dom().contains(node));
                assert(p.node_handle(node) is Some);
                assert(p.xml_elements.dom() =~= t.xml_elements.dom());
                assert(p.texts.dom() =~= t.texts.dom());
            }
            let l = choose|l: ElementId| #[trigger] k.contains(TraceV::Born(node, l));
            assert(n.contains(TraceV::Born(node, l)));
            let hold = WriteV::Hold { at, node };
            let put = WriteV::ListPut {
                list: a.target,
                id: a.stamp,
                value: g.tree.node_handle(node)->Some_0,
                anchor,
            };
            assert(g.writes_for(a) =~= seq![hold, put]);
            lemma_writes_two(g.tree, hold, put);
            let h = g.tree.write(hold).write(put);
            lemma_nodes_there(q, a, g, g.tree);
            lemma_owned_more(g.tree, g.tree, k, n, at);
            lemma_tells_place(g.tree, k, n, at, node, put, None, h);
        },
        _ => {},
    }
}

proof fn lemma_leaves_item(a: OpV)
    requires
        edits(a.kind) is Children,
    ensures
        leaves(a, TraceV::Item(a.target, a.stamp)),
{
    reveal(writes_of);
    let i: int = if a.kind is XmlMove {
        2
    } else {
        born(child_of(a), child_container(a.kind->XmlInsertChild_tag)).len() as int + 3
    };
    assert(0 <= i < writes_of(a).len());
    assert(trace_of(writes_of(a)[i]) == Some(TraceV::Item(a.target, a.stamp)));
    assert(wrote(a, TraceV::Item(a.target, a.stamp)));
}

/// Elements and fragments stay.
proof fn lemma_doms_writes(t: TreeV, ws: Seq<WriteV>)
    ensures
        t.xml_elements.dom().subset_of(t.writes(ws).xml_elements.dom()),
        t.xml_fragments.dom().subset_of(t.writes(ws).xml_fragments.dom()),
    decreases ws.len(),
{
    if ws.len() > 0 {
        lemma_doms_writes(t, ws.drop_last());
    }
}

/// A state that a run leads to tells where its nodes stand.
pub(crate) proof fn lemma_run_tells(
    c: ClientId,
    pool: Set<OpV>,
    q: Seq<OpV>,
    rank: spec_fn(ElementId) -> nat,
)
    requires
        authored_alone(pool),
        ranked(pool, rank),
        runs_in_turn(c, pool, q),
    ensures
        tells(DocV::empty(c).ran(q).tree.gist().tree, traces(q)),
    decreases q.len(),
{
    if q.len() == 0 {
        let t = TreeV::empty();
        let g = t.gist().tree;
        lemma_gist_doms(t);
        reveal(tells);
        assert forall|tr: TraceV| !traces(q).contains(tr) by {}
    } else {
        let h = q.drop_last();
        let a = q.last();
        lemma_runs_prefix(c, pool, q);
        assert(h.push(a) =~= q);
        lemma_run_tells(c, pool, h, rank);
        lemma_grown(c, pool, h, rank);
        lemma_grow(c, pool, h, a, rank);
        lemma_tells_step(c, pool, h, a, DocV::empty(c).ran(h).tree, rank);
    }
}

// --- what a reader works out ---

/// A state seated and told, with what its links were traced by.
pub(crate) open spec fn stands_told(t: TreeV, k: Set<TraceV>) -> bool {
    &&& seated(t.plain())
    &&& tells(t.gist().tree, k)
    &&& forall|x: ElementId| #[trigger]
        t.parents.dom().contains(x) && !t.placements.dom().contains(x) ==> !t.lists.dom().contains(
            t.parents[x],
        ) && t.moves.base.dom().contains(x) && t.moves.base[x] == t.parents[x]
    &&& forall|n: ElementId| #[trigger]
        t.placements.dom().contains(n) ==> t.lists.dom().contains(t.parents[n])
    &&& t.parents.dom().finite()
    &&& t.placements.dom().finite()
    &&& t.moves.log.dom().finite()
    &&& t.revealed == Set::<ElementId>::empty()
}

/// Nothing but a placed node hangs off a sequence.
pub(crate) proof fn lemma_stands_told(
    c: ClientId,
    pool: Set<OpV>,
    q: Seq<OpV>,
    t: TreeV,
    rank: spec_fn(ElementId) -> nat,
)
    requires
        authored_alone(pool),
        ranked(pool, rank),
        runs_in_turn(c, pool, q),
        grown(t.plain(), traces(q), rank),
        tells(t.gist().tree, traces(q)),
    ensures
        stands_told(t, traces(q)),
{
    let p = t.plain();
    let k = traces(q);
    assert(p.lists.dom() =~= t.lists.dom());
    assert forall|x: ElementId| #[trigger]
        t.parents.dom().contains(x) && !t.placements.dom().contains(x)
        implies !t.lists.dom().contains(t.parents[x]) && t.moves.base.dom().contains(x)
        && t.moves.base[x] == t.parents[x] by {
        reveal(known);
        reveal(hung_in);
        assert(p.parents.dom().contains(x) && !p.placements.dom().contains(x));
        assert(!born_in(k, x));
        let y = t.parents[x];
        assert(k.contains(TraceV::Link(x, y)));
        let b = lemma_tracer(c, pool, q, TraceV::Link(x, y));
        if t.lists.dom().contains(y) {
            assert(k.contains(TraceV::List(y)));
            let d = lemma_tracer(c, pool, q, TraceV::List(y));
            lemma_pool_link(pool, b, d, x, y);
        }
    }
    assert forall|n: ElementId| #[trigger] t.placements.dom().contains(n)
        implies t.lists.dom().contains(t.parents[n]) by {
        reveal(seated);
        assert(p.placements.dom().contains(n));
        let o = p.moves.tree()[n];
        lemma_replayed(p.moves.base, p.moves.log, in_order(p.moves.log.dom()), n);
        if !(p.moves.base.dom().contains(n) && o == p.moves.base[n]) {
            let s = in_order(p.moves.log.dom());
            assert(p.moves.log.dom().finite()) by {
                reveal(known);
            }
            lemma_in_order(p.moves.log.dom());
            let i = choose|i: int|
                0 <= i < s.len() && p.moves.log[#[trigger] s[i]].child == n && o
                    == p.moves.log[s[i]].parent;
            assert(s.to_set().contains(s[i]));
            assert(p.moves.log.dom().contains(s[i]));
        }
        assert(has_children(p, o));
    }
    reveal(known);
}

pub(crate) proof fn lemma_child_gist(t: TreeV, p: Placement)
    ensures
        t.gist().tree.child_at(p) == t.child_at(p),
{
    lemma_gist_doms(t);
    if t.lists.dom().contains(p.list) {
        let l = as_written(t.lists[p.list]);
        assert(l.items.dom() =~= t.lists[p.list].items.dom());
    }
}

/// A told state tells its places.
pub(crate) proof fn lemma_tells_places(t: TreeV, k: Set<TraceV>)
    requires
        stands_told(t, k),
    ensures
        t.tells_places(),
        t.places_once(),
        t.places_apart(),
        t.hangs_settled(),
{
    reveal(seated);
    reveal(tells);
    let g = t.gist().tree;
    let p = t.plain();
    lemma_gist_doms(t);
    assert(p.placements == t.placements && p.placement_index == g.placement_index);
    assert(t.placement_index == p.placement_index);
    assert forall|n: ElementId| #[trigger]
        t.placements.dom().contains(n) && !is_spelled(t, t.placements[n]) implies {
        let at = t.placements[n][0];
        t.placements[n].len() == 1 && t.child_at(at) == Some(n) && t.in_children(at)
    } by {
        let at = t.placements[n][0];
        assert(p.placements.dom().contains(n));
        assert(p.placements[n].contains(at));
        assert(g.placement_index.dom().contains(at));
        assert(held_right(g, at));
        assert(!t.is_tombstoned(at));
        let l = as_written(t.lists[at.list]);
        assert(l.items.dom() =~= t.lists[at.list].items.dom());
        lemma_child_gist(t, at);
        let o = choose|o: ElementId| #[trigger] owns(g, k, at, o);
        assert(t.is_node(o) && at.list == node_children_id(o) && link_of(t.parents, at.list)
            == Some(o));
    }
    assert forall|o: ElementId, s: Stamp|
        t.is_node(o) && #[trigger] t.child_at(
            Placement { list: node_children_id(o), stamp: s },
        ) is Some implies {
        let at = Placement { list: node_children_id(o), stamp: s };
        let n = t.child_at(at)->Some_0;
        t.placements.dom().contains(n) && t.placements[n].contains(at)
    } by {
        let at = Placement { list: node_children_id(o), stamp: s };
        lemma_child_gist(t, at);
        assert(g.child_at(at) is Some);
        assert(p.placement_index.dom().contains(at));
        let n = p.placement_index[at];
        assert(p.placements.dom().contains(n));
        assert(p.placements[n].contains(at));
    }
    assert forall|a: ElementId, b: ElementId, at: Placement|
        t.placements.dom().contains(a) && t.placements.dom().contains(b)
            && #[trigger] t.placements[a].contains(at) && #[trigger] t.placements[b].contains(
            at,
        ) implies a == b by {
        assert(p.placements[a].contains(at) && p.placements[b].contains(at));
    }
    assert forall|a: ElementId, b: ElementId, at: Placement| #[trigger]
        t.spells(a, at) && #[trigger] t.spells(b, at) implies a == b by {
        assert(p.placements[a].contains(at) && p.placements[b].contains(at));
    }
    assert(t.moves == p.moves && t.parents == p.parents);
}

/// The place a node was born at is found.
proof fn lemma_birth_found(n: ElementId, places: Seq<Placement>, p: Placement)
    requires
        places.contains(p),
        spec_born_at(p.list, p.stamp, n),
    ensures
        birth_of(n, places) is Some,
        places.contains(birth_of(n, places)->Some_0),
        spec_born_at(
            birth_of(n, places)->Some_0.list,
            birth_of(n, places)->Some_0.stamp,
            n,
        ),
    decreases places.len(),
{
    assert(places[0] == places.first());
    if spec_born_at(places[0].list, places[0].stamp, n) {
        assert(places.contains(places[0]));
    } else {
        let t = places.skip(1);
        let i: int = places.index_of(p);
        assert(t[i - 1] == p);
        lemma_birth_found(n, t, p);
        let b = birth_of(n, t)->Some_0;
        assert(places[t.index_of(b) + 1] == b);
    }
}

/// Birth places tell what placed nodes were created under.
proof fn lemma_births_told(t: TreeV, k: Set<TraceV>, s: TreeV, nodes: Seq<ElementId>)
    requires
        stands_told(t, k),
        s == (TreeV { moves: MovesV::empty(), ..t.with_places_sorted() }),
        forall|i: int| 0 <= i < nodes.len() ==> t.placements.dom().contains(#[trigger] nodes[i]),
    ensures
        ({
            let u = s.based_born(nodes);
            &&& u == (TreeV { moves: u.moves, ..s })
            &&& forall|x: ElementId| #[trigger] u.moves.base.dom().contains(x) <==> nodes.contains(x)
            &&& forall|x: ElementId| #[trigger]
                nodes.contains(x) ==> u.moves.base[x] == t.moves.base[x]
        }),
    decreases nodes.len(),
{
    let u = s.based_born(nodes);
    if nodes.len() > 0 {
        let h = nodes.drop_last();
        let n = nodes.last();
        assert forall|i: int| 0 <= i < h.len() implies t.placements.dom().contains(
            #[trigger] h[i],
        ) by {
            assert(h[i] == nodes[i]);
        }
        lemma_births_told(t, k, s, h);
        assert(nodes[nodes.len() - 1] == n);
        lemma_tells_places(t, k);
        lemma_sorted(t, n);
        let p = t.plain();
        let g = t.gist().tree;
        assert(p.placement_index == g.placement_index && p.placements == t.placements);
        let places = s.placements[n];
        assert(exists|at: Placement| #[trigger]
            places.contains(at) && spec_born_at(at.list, at.stamp, n)) by {
            reveal(seated);
            reveal(tells);
            let r = p.placements[n][0];
            assert(p.placements[n].contains(r));
            assert(g.placement_index.dom().contains(r));
            assert(has_birth(g, n));
            let at = choose|at: Placement| #[trigger] born_there(g, n, at);
            assert(p.placement_index.dom().contains(at));
            assert(p.placements[n].contains(at));
            assert(places.contains(at));
        }
        let at = choose|at: Placement| #[trigger]
            places.contains(at) && spec_born_at(at.list, at.stamp, n);
        lemma_birth_found(n, places, at);
        let b = birth_of(n, places)->Some_0;
        assert(link_of(t.parents, b.list) == Some(t.moves.base[n])) by {
            reveal(seated);
            reveal(tells);
            assert(p.placements[n].contains(b));
            assert(g.placement_index.dom().contains(b));
            assert(based_right(g, b));
            assert(has_children(p, p.moves.base[n]));
            assert(p.moves == t.moves && g.moves.base == t.moves.base && p.parents == t.parents);
        }
        assert forall|x: ElementId| #[trigger]
            u.moves.base.dom().contains(x) <==> nodes.contains(x) by {
            if h.contains(x) {
                assert(nodes[h.index_of(x)] == x);
            }
            if nodes.contains(x) && x != n {
                assert(h[nodes.index_of(x)] == x);
            }
        }
        assert(u.moves.base == s.based_born(h).moves.base.insert(n, t.moves.base[n]));
        assert forall|x: ElementId| #[trigger] nodes.contains(x) implies u.moves.base[x]
            == t.moves.base[x] by {
            if x != n {
                assert(h[nodes.index_of(x)] == x);
                assert(h.contains(x));
            }
        }
    }
}

/// No node that has no place hangs off a sequence.
proof fn lemma_none_unplaced(t: TreeV, k: Set<TraceV>, u: TreeV, nodes: Seq<ElementId>)
    requires
        stands_told(t, k),
        u.placements.dom() == t.placements.dom(),
        u.parents == t.parents,
        u.lists.dom() == t.lists.dom(),
    ensures
        u.based_unplaced(nodes) == u,
    decreases nodes.len(),
{
    if nodes.len() > 0 {
        lemma_none_unplaced(t, k, u, nodes.drop_last());
        let n = nodes.last();
        assert(!u.awaits(n)) by {
            if u.awaits(n) {
                assert(t.parents.dom().contains(n));
            }
        }
    }
}

/// Links tell what everything else was created under.
proof fn lemma_nested_told(t: TreeV, k: Set<TraceV>, u: TreeV, nodes: Seq<ElementId>)
    requires
        stands_told(t, k),
        u.parents == t.parents,
        u.lists.dom() == t.lists.dom(),
        forall|i: int| 0 <= i < nodes.len() ==> t.parents.dom().contains(#[trigger] nodes[i]),
    ensures
        ({
            let v = u.based_nested(nodes);
            &&& v == (TreeV { moves: v.moves, ..u })
            &&& forall|x: ElementId| #[trigger]
                v.moves.base.dom().contains(x) <==> u.moves.base.dom().contains(x) || (
                nodes.contains(x) && !t.placements.dom().contains(x))
            &&& forall|x: ElementId| #[trigger]
                v.moves.base.dom().contains(x) ==> v.moves.base[x] == if nodes.contains(x)
                    && !t.placements.dom().contains(x) {
                    t.moves.base[x]
                } else {
                    u.moves.base[x]
                }
        }),
    decreases nodes.len(),
{
    if nodes.len() > 0 {
        let h = nodes.drop_last();
        let n = nodes.last();
        assert forall|i: int| 0 <= i < h.len() implies t.parents.dom().contains(
            #[trigger] h[i],
        ) by {
            assert(h[i] == nodes[i]);
        }
        assert(nodes[nodes.len() - 1] == n);
        assert(t.parents.dom().contains(n));
        lemma_nested_told(t, k, u, h);
        assert forall|x: ElementId| #[trigger] nodes.contains(x) <==> h.contains(x) || x == n by {
            if h.contains(x) {
                assert(nodes[h.index_of(x)] == x);
            }
            if nodes.contains(x) && x != n {
                assert(h[nodes.index_of(x)] == x);
            }
        }
        if t.placements.dom().contains(n) {
            assert(t.lists.dom().contains(t.parents[n]));
        }
    }
}

/// A told state tells what everything was created under.
pub(crate) proof fn lemma_tells_base(t: TreeV, k: Set<TraceV>)
    requires
        stands_told(t, k),
        t.xml_elements.dom().finite(),
        t.texts.dom().finite(),
    ensures
        t.tells_base(),
{
    reveal(TreeV::reseeded);
    let s = TreeV { moves: MovesV::empty(), ..t.with_places_sorted() };
    assert(s.placements.dom() =~= t.placements.dom());
    let q = ordered::<ElementId>(s.placements.dom());
    let e = ordered::<ElementId>(s.xml_elements.dom());
    let x = ordered::<ElementId>(s.texts.dom());
    let g = ordered::<ElementId>(s.parents.dom());
    lemma_ordered_exists::<ElementId>(s.placements.dom());
    lemma_ordered_exists::<ElementId>(s.parents.dom());
    assert forall|i: int| 0 <= i < q.len() implies t.placements.dom().contains(#[trigger] q[i]) by {
        assert(q.to_set().contains(q[i]));
    }
    assert forall|i: int| 0 <= i < g.len() implies t.parents.dom().contains(#[trigger] g[i]) by {
        assert(g.to_set().contains(g[i]));
    }
    lemma_births_told(t, k, s, q);
    let u = s.based_born(q);
    lemma_none_unplaced(t, k, u, e);
    lemma_none_unplaced(t, k, u, x);
    lemma_nested_told(t, k, u, g);
    let v = u.based_nested(g);
    assert(s.reseeded() == v);
    assert forall|y: ElementId| #[trigger] v.moves.base.dom().contains(y) <==> t.moves.base.dom()
        .contains(y) by {
        assert(q.to_set().contains(y) == t.placements.dom().contains(y));
        assert(g.to_set().contains(y) == t.parents.dom().contains(y));
        assert(q.contains(y) == q.to_set().contains(y));
        assert(g.contains(y) == g.to_set().contains(y));
        if t.placements.dom().contains(y) {
            reveal(seated);
            assert(t.plain().placements.dom().contains(y));
        }
        if t.moves.base.dom().contains(y) && !t.placements.dom().contains(y) {
            reveal(tells);
            let m = t.gist().tree;
            assert(m.moves.base.dom().contains(y));
            if is_held(m, y) {
                let r = choose|r: Placement| #[trigger]
                    m.placement_index.dom().contains(r) && m.placement_index[r] == y;
                reveal(seated);
                assert(t.plain().placement_index.dom().contains(r));
            }
            assert(m.parents.dom().contains(y));
            assert(t.parents.dom().contains(y));
        }
    }
    assert forall|y: ElementId| #[trigger] v.moves.base.dom().contains(y) implies v.moves.base[y]
        == t.moves.base[y] by {
        assert(q.to_set().contains(y) == t.placements.dom().contains(y));
        assert(g.to_set().contains(y) == t.parents.dom().contains(y));
        assert(q.contains(y) == q.to_set().contains(y));
        assert(g.contains(y) == g.to_set().contains(y));
    }
    assert(v.moves.base =~= t.moves.base);
}

} // verus!
