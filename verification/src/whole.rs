//! States that authored ops lead to are whole: everything in them can be written down and
//! read back.

use crate::authored::{
    authored_alone, lemma_pool_op, lemma_runs_prefix, ranked, runs_in_turn,
};
use crate::clientid::ClientId;
use crate::commute::{
    born, child_container, created, effect, lemma_writes_concat, lemma_writes_one, run_drops,
    run_puts, slot_written, WriteV,
};
use crate::doc::DocV;
use crate::element::ElementV;
use crate::elementid::{derived_id, ElementId, ElementKind};
use crate::format::{anchor_carried, op_carried};
use crate::gist::{child_of, lemma_gist_doms, GistV};
use crate::grown::{lemma_grow, lemma_grown};
use crate::identity::{admissible, root_element, spec_payload_id, spec_ranged_id, spec_span};
use crate::list::ItemV;
use crate::list_state::{empty_list, list_carried};
use crate::map::{slot_at, SlotV};
use crate::map_laws::law_live_containers_stay_retained;
use crate::map_state::slot_carried;
use crate::op::{OpKindV, OpV};
use crate::ranged::RangedInitV;
use crate::stamp::Stamp;
use crate::text::run_anchor;
use crate::tree::{empty_map, or_insert, ContainerV, TreeV};
use crate::xml::{node_attrs_id, node_children_id};
use vstd::prelude::*;

verus! {

/// Whether everything in one state can be written down and read back, where another says
/// what is registered.
#[verifier::opaque]
pub open spec fn whole_in(t: TreeV, u: TreeV) -> bool {
    &&& forall|m: ElementId, k: Seq<u8>|
        t.maps.dom().contains(m) && #[trigger] t.maps[m].slots.dom().contains(k) ==> slot_carried(
            t.maps[m].slots[k],
        ) && u.slot_resolves(t.maps[m].slots[k])
    &&& forall|x: ElementId| #[trigger]
        t.xml_elements.dom().contains(x) ==> u.maps.dom().contains(node_attrs_id(x))
            && u.lists.dom().contains(node_children_id(x))
    &&& forall|x: ElementId| #[trigger]
        t.xml_fragments.dom().contains(x) ==> u.lists.dom().contains(node_children_id(x))
    &&& forall|l: ElementId| #[trigger] t.lists.dom().contains(l) ==> list_carried(t.lists[l])
    &&& forall|l: ElementId| #[trigger]
        t.lists.dom().contains(l) ==> t.lists[l].items.dom().finite()
    &&& forall|l: ElementId, s: Stamp|
        t.lists.dom().contains(l) && #[trigger] t.lists[l].items.dom().contains(s)
            ==> u.has_element(t.lists[l].items[s].value)
    &&& forall|l: ElementId| #[trigger] t.texts.dom().contains(l) ==> list_carried(t.texts[l])
    &&& forall|r: ElementId| #[trigger]
        t.ranged.dom().contains(r) ==> u.ranged_carried(r, t.ranged[r])
    &&& t.xml_elements.dom().finite()
    &&& t.xml_fragments.dom().finite()
    &&& t.texts.dom().finite()
}

/// Whether one state registers at least what the other does.
#[verifier::opaque]
spec fn registers(t: TreeV, u: TreeV) -> bool {
    &&& t.maps.dom().subset_of(u.maps.dom())
    &&& t.lists.dom().subset_of(u.lists.dom())
    &&& t.texts.dom().subset_of(u.texts.dom())
    &&& t.counters.dom().subset_of(u.counters.dom())
    &&& t.xml_elements.dom().subset_of(u.xml_elements.dom())
    &&& t.xml_fragments.dom().subset_of(u.xml_fragments.dom())
}

proof fn lemma_registers_writes(t: TreeV, u: TreeV, ws: Seq<WriteV>)
    requires
        registers(t, u),
    ensures
        registers(t, u.writes(ws)),
    decreases ws.len(),
{
    reveal(registers);
    if ws.len() > 0 {
        lemma_registers_writes(t, u, ws.drop_last());
    }
}

proof fn lemma_registers_self(t: TreeV)
    ensures
        registers(t, t),
{
    reveal(registers);
}

proof fn lemma_whole_grows(t: TreeV, u: TreeV, v: TreeV)
    requires
        whole_in(t, u),
        registers(u, v),
    ensures
        whole_in(t, v),
{
    reveal(whole_in);
    reveal(registers);
}

/// Whether a write can be written down and read back.
spec fn fine(w: WriteV, u: TreeV) -> bool {
    match w {
        WriteV::Slot { value, stamp, .. } => stamp.offset == 0 && (value matches Some(e)
            ==> u.has_element(e) && (e matches ElementV::Register(r) ==> r.stamp.offset == 0)),
        WriteV::NewElement { id, .. } => u.maps.dom().contains(node_attrs_id(id))
            && u.lists.dom().contains(node_children_id(id)),
        WriteV::NewFragment { id } => u.lists.dom().contains(node_children_id(id)),
        WriteV::ListPut { id, value, anchor, .. } => id.offset == 0 && anchor_carried(anchor)
            && u.has_element(value),
        WriteV::TextPut { id, anchor, .. } => id.offset == 0 && anchor_carried(anchor),
        WriteV::Note { id, entry } => u.ranged_carried(id, entry),
        WriteV::NoteSet { stamp, .. } => stamp.offset == 0,
        _ => true,
    }
}

proof fn lemma_whole_slot(s: Option<SlotV>, value: Option<ElementV>, stamp: Stamp)
    requires
        s matches Some(x) ==> slot_carried(x),
        stamp.offset == 0,
        value matches Some(ElementV::Register(r)) ==> r.stamp.offset == 0,
    ensures
        slot_carried(slot_written(s, value, stamp)),
{
    if let Some(v) = value {
        let other = SlotV { stamp, value: None, container: None };
        law_live_containers_stay_retained(s, v, stamp, other);
    } else {
        let other = SlotV { stamp, value: None, container: None };
        law_live_containers_stay_retained(s, ElementV::Counter(arbitrary()), stamp, other);
    }
}

proof fn lemma_whole_write(t: TreeV, u: TreeV, w: WriteV)
    requires
        whole_in(t, u),
        fine(w, u),
    ensures
        whole_in(t.write(w), u),
{
    reveal(whole_in);
    let v = t.write(w);
    match w {
        WriteV::Slot { map, key, value, stamp } => {
            if t.maps.dom().contains(map) {
                let s = slot_at(t.maps[map].slots, key);
                lemma_whole_slot(s, value, stamp);
                assert forall|m: ElementId, k: Seq<u8>|
                    v.maps.dom().contains(m) && #[trigger] v.maps[m].slots.dom().contains(
                        k,
                    ) implies slot_carried(v.maps[m].slots[k]) && u.slot_resolves(
                    v.maps[m].slots[k],
                ) by {
                    if m == map && k == key {
                        if s is Some {
                            assert(t.maps[m].slots.dom().contains(k));
                        }
                    } else {
                        assert(t.maps[m].slots.dom().contains(k));
                    }
                }
            }
        },
        WriteV::NewMap { id } => {
            assert(v.maps == or_insert(t.maps, id, empty_map(id)));
            assert forall|m: ElementId, k: Seq<u8>|
                v.maps.dom().contains(m) && #[trigger] v.maps[m].slots.dom().contains(
                    k,
                ) implies slot_carried(v.maps[m].slots[k]) && u.slot_resolves(
                v.maps[m].slots[k],
            ) by {
                if !t.maps.dom().contains(m) {
                    assert(v.maps[m].slots == Map::<Seq<u8>, SlotV>::empty());
                }
                assert(t.maps[m].slots.dom().contains(k));
            }
        },
        WriteV::ListPut { list, .. } => {
            assert forall|l: ElementId, s: Stamp|
                v.lists.dom().contains(l) && #[trigger] v.lists[l].items.dom().contains(
                    s,
                ) implies u.has_element(v.lists[l].items[s].value) by {
                assert(t.lists.dom().contains(l));
                if t.lists[l].items.dom().contains(s) {
                    assert(u.has_element(t.lists[l].items[s].value));
                }
            }
        },
        WriteV::ListDrop { .. } => {
            assert forall|l: ElementId, s: Stamp|
                v.lists.dom().contains(l) && #[trigger] v.lists[l].items.dom().contains(
                    s,
                ) implies u.has_element(v.lists[l].items[s].value) by {
                assert(t.lists[l].items.dom().contains(s));
            }
        },
        WriteV::NewList { id } => {
            assert(v.lists == or_insert(t.lists, id, empty_list(id)));
            assert forall|l: ElementId, s: Stamp|
                v.lists.dom().contains(l) && #[trigger] v.lists[l].items.dom().contains(
                    s,
                ) implies u.has_element(v.lists[l].items[s].value) by {
                if !t.lists.dom().contains(l) {
                    assert(v.lists[l].items == Map::<Stamp, ItemV>::empty());
                }
                assert(t.lists[l].items.dom().contains(s));
            }
        },
        _ => {},
    }
}

proof fn lemma_whole_writes(t: TreeV, u: TreeV, ws: Seq<WriteV>)
    requires
        whole_in(t, u),
        forall|i: int| 0 <= i < ws.len() ==> fine(#[trigger] ws[i], u),
    ensures
        whole_in(t.writes(ws), u),
    decreases ws.len(),
{
    if ws.len() > 0 {
        let h = ws.drop_last();
        assert forall|i: int| 0 <= i < h.len() implies fine(#[trigger] h[i], u) by {
            assert(h[i] == ws[i]);
        }
        lemma_whole_writes(t, u, h);
        assert(ws[ws.len() - 1] == ws.last());
        lemma_whole_write(t.writes(h), u, ws.last());
    }
}

/// Whether a write's container is registered.
spec fn here(w: WriteV, u: TreeV) -> bool {
    match w {
        WriteV::Tally { id, .. } => u.counters.dom().contains(id),
        WriteV::NewMap { id } => u.maps.dom().contains(id),
        WriteV::NewList { id } => u.lists.dom().contains(id),
        WriteV::NewText { id } => u.texts.dom().contains(id),
        WriteV::NewElement { id, .. } => u.xml_elements.dom().contains(id),
        WriteV::NewFragment { id } => u.xml_fragments.dom().contains(id),
        _ => true,
    }
}

/// What writes make is there after them.
proof fn lemma_here(t: TreeV, ws: Seq<WriteV>, i: int)
    requires
        0 <= i < ws.len(),
    ensures
        here(ws[i], t.writes(ws)),
    decreases ws.len(),
{
    if i < ws.len() - 1 {
        lemma_here(t, ws.drop_last(), i);
    }
}

/// What a new container writes is there after it.
proof fn lemma_born_here(t: TreeV, ws: Seq<WriteV>, at: int, id: ElementId, c: ContainerV)
    requires
        0 <= at,
        at + born(id, c).len() <= ws.len(),
        forall|i: int| 0 <= i < born(id, c).len() ==> ws[at + i] == #[trigger] born(id, c)[i],
    ensures
        t.writes(ws).has_element(c.handle(id)),
        forall|i: int| 0 <= i < born(id, c).len() ==> fine(#[trigger] born(id, c)[i], t.writes(ws)),
{
    let b = born(id, c);
    lemma_here(t, ws, at);
    assert(ws[at + 0] == b[0]);
    match c {
        ContainerV::XmlElement(_) => {
            assert(ws[at + 1] == b[1]);
            assert(ws[at + 2] == b[2]);
            lemma_here(t, ws, at + 1);
            lemma_here(t, ws, at + 2);
        },
        ContainerV::XmlFragment => {
            assert(ws[at + 1] == b[1]);
            lemma_here(t, ws, at + 1);
        },
        _ => {},
    }
}

/// What creating a container at a key writes can be written down.
proof fn lemma_created_fine(
    t: TreeV,
    op: OpV,
    key: Seq<u8>,
    c: ContainerV,
    i: int,
)
    requires
        op.stamp.offset == 0,
        effect(op, None) == seq![WriteV::Raise { stamp: op.stamp, span: spec_span(op.kind) }]
            + created(op.target, key, op.stamp, c),
        0 <= i < effect(op, None).len(),
    ensures
        fine(effect(op, None)[i], t.writes(effect(op, None))),
{
    let ws = effect(op, None);
    let child = c.child_id(op.target, key);
    let b = born(child, c);
    assert forall|j: int| 0 <= j < b.len() implies ws[1 + j] == #[trigger] b[j] by {}
    lemma_born_here(t, ws, 1, child, c);
    if 1 <= i <= b.len() {
        assert(ws[i] == b[i - 1]);
        assert(fine(b[i - 1], t.writes(ws)));
    }
}

/// Everything an authored op writes can be written down.
proof fn lemma_effect_fine(t: TreeV, op: OpV, i: int)
    requires
        !(op.kind is XmlInsertChild),
        !(op.kind is XmlMove),
        !(op.kind is XmlReveal),
        op_carried(op),
        admissible(op),
        0 <= i < effect(op, None).len(),
    ensures
        fine(effect(op, None)[i], t.writes(effect(op, None))),
{
    let ws = effect(op, None);
    let u = t.writes(ws);
    match op.kind {
        OpKindV::CounterInc { key, amount } => {
            let id = derived_id(op.target, key, ElementKind::Counter);
            assert(ws[1] is Tally && ws[1]->Tally_id == id);
            lemma_here(t, ws, 1);
            assert(ws.len() == 3);
            assert(ws[2] is Slot && ws[2]->Slot_value == Some(ElementV::Counter(id)));
        },
        OpKindV::CounterDec { key, amount } => {
            let id = derived_id(op.target, key, ElementKind::Counter);
            assert(ws[1] is Tally && ws[1]->Tally_id == id);
            lemma_here(t, ws, 1);
            assert(ws.len() == 3);
            assert(ws[2] is Slot && ws[2]->Slot_value == Some(ElementV::Counter(id)));
        },
        OpKindV::MapCreate { key } => {
            lemma_created_fine(t, op, key, ContainerV::LwwMap, i);
        },
        OpKindV::ListCreate { key } => {
            lemma_created_fine(t, op, key, ContainerV::List, i);
        },
        OpKindV::TextCreate { key } => {
            lemma_created_fine(t, op, key, ContainerV::Text, i);
        },
        OpKindV::XmlElementCreate { key, tag } => {
            lemma_created_fine(t, op, key, ContainerV::XmlElement(tag), i);
        },
        OpKindV::XmlFragmentCreate { key } => {
            lemma_created_fine(t, op, key, ContainerV::XmlFragment, i);
        },
        OpKindV::TextInsert { s, anchor } => {
            if i > 0 {
                let r = run_puts(op.target, op.stamp, s, anchor);
                assert(ws[i] == r[i - 1]);
                assert(op.stamp.lamport + (i - 1) <= u64::MAX);
                reveal(run_anchor);
                let a = run_anchor(op.stamp, anchor, i - 1);
                assert(ws[i] is TextPut && ws[i]->TextPut_anchor == a);
                if i > 1 {
                    let before = op.stamp.spec_run_member((i - 2) as u64);
                    assert(before.offset == 0);
                    assert(a.parent == Some(before));
                } else {
                    assert(a == anchor);
                    assert(anchor_carried(anchor));
                }
                assert(anchor_carried(a));
            }
        },
        OpKindV::RangedCreate { start, end, payload, name } => {
            if let RangedInitV::Composite(kind) = payload {
                let id = spec_ranged_id(op.stamp);
                let pid = spec_payload_id(id, kind);
                if let Some(c) = TreeV::payload_container(kind) {
                    let b = born(pid, c);
                    assert forall|j: int| 0 <= j < b.len() implies ws[1 + j]
                        == #[trigger] b[j] by {}
                    lemma_born_here(t, ws, 1, pid, c);
                    if 1 <= i <= b.len() {
                        assert(ws[i] == b[i - 1]);
                        assert(fine(b[i - 1], u));
                    }
                }
            }
        },
        OpKindV::TextDelete { ids } => {
            if i > 0 {
                assert(ws[i] == run_drops(op.target, ids)[i - 1]);
            }
        },
        _ => {},
    }
}

/// Whether every op of a run is one the bytes carry.
pub open spec fn all_carried(q: Seq<OpV>) -> bool {
    forall|i: int| 0 <= i < q.len() ==> op_carried(#[trigger] q[i]) && admissible(q[i])
}

/// Everything an edit writes to a gist can be written down.
proof fn lemma_body_fine(g: GistV, op: OpV, i: int)
    requires
        !(op.kind is XmlInsertChild),
        !(op.kind is XmlMove),
        !(op.kind is XmlReveal),
        op_carried(op),
        admissible(op),
        0 <= i < g.writes_for(op).len(),
    ensures
        fine(g.writes_for(op)[i], g.tree.writes(g.writes_for(op))),
{
    let ws = g.writes_for(op);
    let raise = WriteV::Raise { stamp: op.stamp, span: spec_span(op.kind) };
    let all = effect(op, None);
    assert(all =~= seq![raise] + ws);
    lemma_effect_fine(g.tree, op, i + 1);
    lemma_writes_concat(g.tree, seq![raise], ws);
    lemma_writes_one(g.tree, raise);
    let low = g.tree.write(raise);
    lemma_dry_writes(g.tree, low, ws);
    assert(all[i + 1] == ws[i]);
    lemma_fine_dry(ws[i], g.tree.writes(all), g.tree.writes(ws));
}

/// Whether two states differ at most in figures.
spec fn dry_alike(t: TreeV, u: TreeV) -> bool {
    u == (TreeV { high_water: u.high_water, ..t })
}

proof fn lemma_dry_writes(t: TreeV, u: TreeV, ws: Seq<WriteV>)
    requires
        dry_alike(t, u),
    ensures
        dry_alike(t.writes(ws), u.writes(ws)),
    decreases ws.len(),
{
    if ws.len() > 0 {
        lemma_dry_writes(t, u, ws.drop_last());
    }
}

proof fn lemma_fine_dry(w: WriteV, t: TreeV, u: TreeV)
    requires
        dry_alike(u, t),
        fine(w, t),
    ensures
        fine(w, u),
{
}

/// What bearing a child writes can be written down.
proof fn lemma_bear_fine(g: GistV, op: OpV, i: int)
    requires
        op.kind is XmlInsertChild,
        op_carried(op),
        0 <= i < g.writes_for(op).len(),
    ensures
        fine(g.writes_for(op)[i], g.tree.writes(g.writes_for(op))),
{
    let ws = g.writes_for(op);
    let c = child_container(op.kind->XmlInsertChild_tag);
    let b = born(child_of(op), c);
    assert forall|j: int| 0 <= j < b.len() implies ws[0 + j] == #[trigger] b[j] by {}
    lemma_born_here(g.tree, ws, 0, child_of(op), c);
    if i < b.len() {
        assert(ws[i] == b[i]);
        assert(fine(b[i], g.tree.writes(ws)));
    }
}

/// What a move writes can be written down.
proof fn lemma_move_fine(g: GistV, op: OpV, i: int)
    requires
        op.kind is XmlMove,
        op_carried(op),
        0 <= i < g.writes_for(op).len(),
    ensures
        fine(g.writes_for(op)[i], g.tree.writes(g.writes_for(op))),
{
    let ws = g.writes_for(op);
    lemma_registers_self(g.tree);
    lemma_registers_writes(g.tree, g.tree, ws);
    reveal(registers);
}

/// What a run of authored ops leads to is whole, and its moves can be written down.
pub(crate) proof fn lemma_whole(
    c: ClientId,
    pool: Set<OpV>,
    q: Seq<OpV>,
    rank: spec_fn(ElementId) -> nat,
)
    requires
        authored_alone(pool),
        ranked(pool, rank),
        runs_in_turn(c, pool, q),
        all_carried(q),
    ensures
        whole_in(DocV::empty(c).ran(q).tree.gist().tree, DocV::empty(c).ran(q).tree.gist().tree),
        forall|s: Stamp| #[trigger]
            DocV::empty(c).ran(q).tree.moves.log.dom().contains(s) ==> s.offset == 0,
    decreases q.len(),
{
    let t = DocV::empty(c).ran(q).tree;
    if q.len() == 0 {
        lemma_nothing_is_whole();
    } else {
        let h = q.drop_last();
        let op = q.last();
        assert(all_carried(h)) by {
            assert forall|i: int| 0 <= i < h.len() implies op_carried(#[trigger] h[i])
                && admissible(h[i]) by {
                assert(h[i] == q[i]);
            }
        }
        assert(q[q.len() - 1] == op);
        lemma_runs_prefix(c, pool, q);
        lemma_whole(c, pool, h, rank);
        lemma_pool_op(pool, op);
        let s = DocV::empty(c).ran(h).tree;
        lemma_grown(c, pool, h, rank);
        lemma_grow(c, pool, h, op, rank);
        let g = s.gist();
        let ws = g.writes_for(op);
        let p = g.tree;
        let u = p.writes(ws);
        assert forall|i: int| 0 <= i < ws.len() implies fine(#[trigger] ws[i], u) by {
            if op.kind is XmlInsertChild {
                lemma_bear_fine(g, op, i);
            } else if op.kind is XmlMove {
                lemma_move_fine(g, op, i);
            } else {
                lemma_body_fine(g, op, i);
            }
        }
        lemma_registers_self(p);
        lemma_registers_writes(p, p, ws);
        lemma_whole_grows(p, p, u);
        lemma_whole_writes(p, u, ws);
        assert(t.gist().tree == u);
        assert(t.moves.log == t.gist().log && s.moves.log == g.log);
    }
}

proof fn lemma_nothing_is_whole()
    ensures
        whole_in(TreeV::empty().gist().tree, TreeV::empty().gist().tree),
{
    reveal(whole_in);
    let t = TreeV::empty();
    let p = t.gist().tree;
    lemma_gist_doms(t);
    assert forall|m: ElementId, k: Seq<u8>|
        p.maps.dom().contains(m) && #[trigger] p.maps[m].slots.dom().contains(k)
        implies slot_carried(p.maps[m].slots[k]) && p.slot_resolves(p.maps[m].slots[k]) by {
        assert(m == root_element());
        assert(p.maps[m].slots == Map::<Seq<u8>, SlotV>::empty());
    }
}

} // verus!
