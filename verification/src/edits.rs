//! What an edit promises: what is read afterwards is what was written, and nothing else moved.

use crate::acl::{AclEffect, AclGrantV, AclSubjectV};
use crate::anchor::Anchor;
use crate::annot::PayloadV;
use crate::clientid::ClientId;
use crate::commute::{
    body, born, child_container, created, effect, lemma_effect, lemma_writes_concat,
    lemma_writes_one, lemma_writes_two, WriteV,
};
use crate::counter::{count_of, count_over, tally_of, Tally};
use crate::diff_laws::{count_reads, slot_reads, tag_reads};
use crate::doc::DocV;
use crate::element::ElementV;
use crate::elementid::{derived_id, ElementId, ElementKind};
use crate::identity::{
    root_element, spec_acl_id, spec_payload_id, spec_ranged_id, spec_xml_child_id,
};
use crate::list::{list_delete, list_insert, ListV};
use crate::list_laws::{
    law_delete_removes_only_its_item, law_insert_lands_at_its_index, law_order_has_no_repeats,
    lemma_live_no_dup,
};
use crate::mint::law_mints_clear_the_record;
use crate::op::{OpId, OpKindV, OpV};
use crate::sequence::{lemma_live_in_items, list_live, list_place, list_values};
use crate::order::order;
use crate::ranged::{RangeAnchor, RangedInitV};
use crate::scalar::ScalarV;
use crate::stamp::Stamp;
use crate::table::{Key, lemma_ordered_exists, lemma_rises_unique, ordered};
use crate::text::{
    law_text_insert_lands_at_its_index, lemma_cut, run_is_new, text_delete, text_of,
};
use crate::tree::{ContainerV, TreeV};
use crate::undo_laws::{lemma_slot_after, slot_write};
use crate::walk::zone_of_op;
use crate::xml::{element_node_id, fragment_node_id, node_attrs_id, node_children_id};
use vstd::prelude::*;

verus! {

// --- nothing else moves ---

/// The one place an edit may change, of each sort.
pub struct PlaceV {
    pub slot: Option<(ElementId, Seq<u8>)>,
    pub list: Option<ElementId>,
    pub text: Option<ElementId>,
    pub count: Option<ElementId>,
    pub note: Option<ElementId>,
    pub grant: Option<ElementId>,
}

pub open spec fn nowhere() -> PlaceV {
    PlaceV { slot: None, list: None, text: None, count: None, note: None, grant: None }
}

/// Whether two states read alike but at one place: every slot, list, text, count,
/// annotation and grant of the first reads in the second as it did.
pub open spec fn alike_but(t: TreeV, u: TreeV, at: PlaceV) -> bool {
    &&& forall|m: ElementId| #[trigger]
        t.maps.dom().contains(m) ==> u.maps.dom().contains(m)
    &&& forall|x: ElementId| #[trigger]
        t.xml_elements.dom().contains(x) ==> u.xml_elements.dom().contains(x)
    &&& forall|m: ElementId, k: Seq<u8>|
        t.maps.dom().contains(m) && at.slot != Some((m, k)) ==> #[trigger] slot_reads(u, m, k)
            == slot_reads(t, m, k)
    &&& forall|l: ElementId| #[trigger]
        t.lists.dom().contains(l) && at.list != Some(l) ==> u.lists.dom().contains(l) && list_live(
            u.lists[l],
        ) == list_live(t.lists[l]) && list_values(u.lists[l]) == list_values(t.lists[l])
    &&& forall|l: ElementId| #[trigger]
        t.texts.dom().contains(l) && at.text != Some(l) ==> u.texts.dom().contains(l) && list_live(
            u.texts[l],
        ) == list_live(t.texts[l]) && text_of(u.texts[l]) == text_of(t.texts[l])
    &&& forall|c: ElementId|
        at.count != Some(c) ==> #[trigger] count_reads(u, c) == count_reads(t, c)
    &&& forall|x: ElementId|
        t.xml_elements.dom().contains(x) ==> #[trigger] tag_reads(u, x) == tag_reads(t, x)
    &&& forall|n: ElementId| #[trigger]
        t.ranged.dom().contains(n) && at.note != Some(n) ==> u.ranged.dom().contains(n)
            && u.ranged[n] == t.ranged[n]
    &&& forall|g: ElementId| #[trigger]
        t.acl.dom().contains(g) && at.grant != Some(g) ==> u.acl.dom().contains(g) && u.acl[g]
            == t.acl[g]
}

/// The place an edit of a kind is at.
pub open spec fn place_of(target: ElementId, kind: OpKindV) -> PlaceV {
    match kind {
        OpKindV::MapSet { key, .. } => PlaceV { slot: Some((target, key)), ..nowhere() },
        OpKindV::RegisterSet { key, .. } => PlaceV { slot: Some((target, key)), ..nowhere() },
        OpKindV::MapDelete { key } => PlaceV { slot: Some((target, key)), ..nowhere() },
        OpKindV::MapCreate { key } => PlaceV { slot: Some((target, key)), ..nowhere() },
        OpKindV::ListCreate { key } => PlaceV { slot: Some((target, key)), ..nowhere() },
        OpKindV::TextCreate { key } => PlaceV { slot: Some((target, key)), ..nowhere() },
        OpKindV::XmlElementCreate { key, .. } => PlaceV { slot: Some((target, key)), ..nowhere() },
        OpKindV::XmlFragmentCreate { key } => PlaceV { slot: Some((target, key)), ..nowhere() },
        OpKindV::CounterInc { key, .. } => PlaceV {
            slot: Some((target, key)),
            count: Some(derived_id(target, key, ElementKind::Counter)),
            ..nowhere()
        },
        OpKindV::CounterDec { key, .. } => PlaceV {
            slot: Some((target, key)),
            count: Some(derived_id(target, key, ElementKind::Counter)),
            ..nowhere()
        },
        OpKindV::ListInsert { .. } => PlaceV { list: Some(target), ..nowhere() },
        OpKindV::ListDelete { .. } => PlaceV { list: Some(target), ..nowhere() },
        OpKindV::XmlInsertChild { .. } => PlaceV { list: Some(target), ..nowhere() },
        OpKindV::TextInsert { .. } => PlaceV { text: Some(target), ..nowhere() },
        OpKindV::TextDelete { .. } => PlaceV { text: Some(target), ..nowhere() },
        OpKindV::RangedSetPayload { id, .. } => PlaceV { note: Some(id), ..nowhere() },
        OpKindV::RangedDelete { id } => PlaceV { note: Some(id), ..nowhere() },
        OpKindV::AclRevoke { id } => PlaceV { grant: Some(id), ..nowhere() },
        _ => nowhere(),
    }
}

/// Whether a write changes nothing but at a place.
spec fn spares(w: WriteV, at: PlaceV) -> bool {
    match w {
        WriteV::Slot { map, key, .. } => at.slot == Some((map, key)),
        WriteV::ListPut { list, .. } => at.list == Some(list),
        WriteV::ListDrop { list, .. } => at.list == Some(list),
        WriteV::TextPut { text, .. } => at.text == Some(text),
        WriteV::TextDrop { text, .. } => at.text == Some(text),
        WriteV::Tally { id, .. } => at.count == Some(id),
        WriteV::NoteSet { id, .. } => at.note == Some(id),
        WriteV::NoteDrop { id } => at.note == Some(id),
        WriteV::Revoke { id, .. } => at.grant == Some(id),
        _ => true,
    }
}

/// The same, of the containers themselves.
spec fn kept_but(t: TreeV, u: TreeV, at: PlaceV) -> bool {
    &&& forall|m: ElementId| #[trigger]
        t.maps.dom().contains(m) ==> u.maps.dom().contains(m)
    &&& forall|m: ElementId, k: Seq<u8>|
        t.maps.dom().contains(m) && at.slot != Some((m, k))
            ==> #[trigger] u.maps[m].slots.dom().contains(k) == t.maps[m].slots.dom().contains(k)
            && u.maps[m].slots[k] == t.maps[m].slots[k]
    &&& forall|l: ElementId| #[trigger]
        t.lists.dom().contains(l) && at.list != Some(l) ==> u.lists.dom().contains(l) && u.lists[l]
            == t.lists[l]
    &&& forall|l: ElementId| #[trigger]
        t.texts.dom().contains(l) && at.text != Some(l) ==> u.texts.dom().contains(l) && u.texts[l]
            == t.texts[l]
    &&& forall|c: ElementId| at.count != Some(c) ==> #[trigger] count_reads(u, c) == count_reads(t, c)
    &&& forall|x: ElementId| #[trigger]
        t.xml_elements.dom().contains(x) ==> u.xml_elements.dom().contains(x) && u.xml_elements[x]
            == t.xml_elements[x]
    &&& forall|n: ElementId| #[trigger]
        t.ranged.dom().contains(n) && at.note != Some(n) ==> u.ranged.dom().contains(n)
            && u.ranged[n] == t.ranged[n]
    &&& forall|g: ElementId| #[trigger]
        t.acl.dom().contains(g) && at.grant != Some(g) ==> u.acl.dom().contains(g) && u.acl[g]
            == t.acl[g]
}

proof fn lemma_write_spares(t: TreeV, w: WriteV, at: PlaceV)
    requires
        spares(w, at),
    ensures
        kept_but(t, t.write(w), at),
{
    let u = t.write(w);
    assert forall|c: ElementId| at.count != Some(c) implies #[trigger] count_reads(u, c)
        == count_reads(t, c) by {}
}

proof fn lemma_writes_spare(t: TreeV, ws: Seq<WriteV>, at: PlaceV)
    requires
        forall|i: int| 0 <= i < ws.len() ==> spares(#[trigger] ws[i], at),
    ensures
        kept_but(t, t.writes(ws), at),
    decreases ws.len(),
{
    if ws.len() > 0 {
        let h = ws.drop_last();
        assert forall|i: int| 0 <= i < h.len() implies spares(#[trigger] h[i], at) by {
            assert(h[i] == ws[i]);
        }
        lemma_writes_spare(t, h, at);
        assert(spares(ws[ws.len() - 1], at));
        let m = t.writes(h);
        let u = m.write(ws.last());
        lemma_write_spares(m, ws.last(), at);
        assert forall|l: ElementId, k: Seq<u8>|
            t.maps.dom().contains(l) && at.slot != Some((l, k))
            implies #[trigger] u.maps[l].slots.dom().contains(k) == t.maps[l].slots.dom().contains(k)
            && u.maps[l].slots[k] == t.maps[l].slots[k] by {
            assert(m.maps.dom().contains(l));
            assert(m.maps[l].slots.dom().contains(k) == t.maps[l].slots.dom().contains(k));
        }
        assert forall|c: ElementId| at.count != Some(c) implies #[trigger] count_reads(u, c)
            == count_reads(t, c) by {
            assert(count_reads(m, c) == count_reads(t, c));
        }
    }
}

/// What an op writes is at its place.
proof fn lemma_effect_spares(op: OpV, owner: Option<ElementId>, i: int)
    requires
        0 <= i < effect(op, owner).len(),
        !(op.kind is XmlMove),
    ensures
        spares(effect(op, owner)[i], place_of(op.target, op.kind)),
{
    let ws = body(op.target, op.kind, op.stamp, op.id.client, owner);
    if i > 0 {
        assert(effect(op, owner)[i] == ws[i - 1]);
    }
}

/// An edit touches nothing but its own place: every other slot, list, text, count,
/// annotation and grant reads as it did. What the edit goes into is there, and no movable
/// node changes its place by it.
pub proof fn law_an_edit_touches_only_its_place(t: TreeV, op: OpV)
    requires
        t.takes(op),
    ensures
        alike_but(
            t,
            t.apply_kind(op.target, op.kind, op.stamp, op.id.client),
            place_of(op.target, op.kind),
        ),
{
    let at = place_of(op.target, op.kind);
    let u = t.apply_kind(op.target, op.kind, op.stamp, op.id.client);
    let ws = effect(op, t.owner_of(op));
    let p = t.plain();
    let q = u.plain();
    lemma_effect(t, op);
    assert forall|i: int| 0 <= i < ws.len() implies spares(#[trigger] ws[i], at) by {
        lemma_effect_spares(op, t.owner_of(op), i);
    }
    lemma_writes_spare(p, ws, at);
    assert(kept_but(p, q, at));
    assert forall|m: ElementId| #[trigger] t.maps.dom().contains(m) implies u.maps.dom().contains(
        m,
    ) by {
        assert(p.maps.dom().contains(m));
        assert(q.maps.dom().contains(m));
    }
    assert forall|x: ElementId| #[trigger]
        t.xml_elements.dom().contains(x) implies u.xml_elements.dom().contains(x) by {
        assert(p.xml_elements.dom().contains(x));
        assert(q.xml_elements.dom().contains(x));
    }
    assert forall|m: ElementId, k: Seq<u8>|
        t.maps.dom().contains(m) && at.slot != Some((m, k)) implies #[trigger] slot_reads(u, m, k)
        == slot_reads(t, m, k) by {
        assert(p.maps.dom().contains(m));
        assert(q.maps[m].slots.dom().contains(k) == p.maps[m].slots.dom().contains(k));
        assert(q.maps.dom().contains(m));
        assert(u.maps.dom().contains(m));
    }
    assert forall|l: ElementId| #[trigger]
        t.lists.dom().contains(l) && at.list != Some(l) implies u.lists.dom().contains(l)
        && list_live(u.lists[l]) == list_live(t.lists[l]) && list_values(u.lists[l])
        == list_values(t.lists[l]) by {
        assert(p.lists.dom().contains(l));
        assert(q.lists.dom().contains(l) && q.lists[l] == p.lists[l]);
        lemma_flag_unseen(t.lists[l], u.lists[l]);
    }
    assert forall|l: ElementId| #[trigger]
        t.texts.dom().contains(l) && at.text != Some(l) implies u.texts.dom().contains(l)
        && list_live(u.texts[l]) == list_live(t.texts[l]) && text_of(u.texts[l]) == text_of(
        t.texts[l],
    ) by {
        assert(p.texts.dom().contains(l));
        assert(q.texts.dom().contains(l) && q.texts[l] == p.texts[l]);
        lemma_flag_unseen(t.texts[l], u.texts[l]);
    }
    assert forall|c: ElementId| at.count != Some(c) implies #[trigger] count_reads(u, c)
        == count_reads(t, c) by {
        assert(count_reads(q, c) == count_reads(p, c));
    }
    assert forall|x: ElementId| t.xml_elements.dom().contains(x) implies #[trigger] tag_reads(u, x)
        == tag_reads(t, x) by {
        assert(p.xml_elements.dom().contains(x));
        assert(q.xml_elements.dom().contains(x));
    }
    assert forall|n: ElementId| #[trigger]
        t.ranged.dom().contains(n) && at.note != Some(n) implies u.ranged.dom().contains(n)
        && u.ranged[n] == t.ranged[n] by {
        assert(p.ranged.dom().contains(n));
    }
    assert forall|g: ElementId| #[trigger]
        t.acl.dom().contains(g) && at.grant != Some(g) implies u.acl.dom().contains(g) && u.acl[g]
        == t.acl[g] by {
        assert(p.acl.dom().contains(g));
    }
}

/// Whether a sequence has lost its slot does not change what it reads.
proof fn lemma_flag_unseen(a: ListV, b: ListV)
    requires
        a.places == b.places,
        a.items == b.items,
    ensures
        list_live(a) == list_live(b),
        list_values(a) == list_values(b),
        text_of(a) == text_of(b),
{
    crate::list_laws::lemma_live_same(a, b, crate::order::order(a.places));
    assert(list_values(a) =~= list_values(b));
}

// --- what was written is read ---

/// The op a replica emits for an edit that has a stamp to be had.
pub open spec fn op_of(d: DocV, target: ElementId, kind: OpKindV) -> OpV {
    OpV {
        id: OpId { client: d.client, seq: 0 },
        stamp: d.mint(target, kind)->Some_0,
        target,
        kind,
        tx: None,
        zone: None,
    }
}

/// Whether an edit has a stamp to be had and goes into something that is there.
pub open spec fn goes_in(d: DocV, target: ElementId, kind: OpKindV) -> bool {
    d.mint(target, kind) is Some && d.tree.takes(op_of(d, target, kind))
}

/// Whether the clock an edit is stamped by has reached a stamp.
pub open spec fn reached(d: DocV, target: ElementId, kind: OpKindV, s: Stamp) -> bool {
    s.lamport <= d.clock(zone_of_op(d.tree, d.schema, target, kind))
}

/// The state after an edit is that of its op.
pub(crate) proof fn lemma_edited(d: DocV, target: ElementId, kind: OpKindV)
    requires
        d.mint(target, kind) is Some,
    ensures
        d.emitted(target, kind).tree == d.tree.apply_kind(
            target,
            kind,
            d.mint(target, kind)->Some_0,
            d.client,
        ),
{
    reveal(DocV::emitted);
}

/// An edit of a replica touches nothing but its own place.
pub proof fn law_an_emitted_edit_touches_only_its_place(d: DocV, target: ElementId, kind: OpKindV)
    requires
        goes_in(d, target, kind),
    ensures
        alike_but(d.tree, d.emitted(target, kind).tree, place_of(target, kind)),
{
    lemma_edited(d, target, kind);
    law_an_edit_touches_only_its_place(d.tree, op_of(d, target, kind));
}

/// Whether the edit of a slot is stamped later than what the slot was last written at.
pub open spec fn overwrites(d: DocV, map: ElementId, key: Seq<u8>, kind: OpKindV) -> bool {
    d.tree.maps[map].slots.dom().contains(key) ==> reached(
        d,
        map,
        kind,
        d.tree.maps[map].slots[key].stamp,
    )
}

/// What a slot reads after an edit of it.
proof fn lemma_slot_read(d: DocV, map: ElementId, key: Seq<u8>, kind: OpKindV)
    requires
        goes_in(d, map, kind),
        overwrites(d, map, key, kind),
        slot_write(op_of(d, map, kind)) matches Some(w) && w.0 == key,
    ensures
        slot_reads(d.emitted(map, kind).tree, map, key) == slot_write(op_of(d, map, kind))->Some_0.1,
{
    let op = op_of(d, map, kind);
    lemma_edited(d, map, kind);
    lemma_slot_after(d.tree, op);
    law_mints_clear_the_record(d, map, kind);
    let u = d.emitted(map, kind).tree;
    assert(d.tree.maps.dom().contains(map));
    assert(u.slot(map, key) is Some);
}

/// A scalar set at a key is read there.
pub proof fn law_a_set_value_is_read(d: DocV, map: ElementId, key: Seq<u8>, value: ScalarV)
    requires
        goes_in(d, map, OpKindV::MapSet { key, value }),
        overwrites(d, map, key, OpKindV::MapSet { key, value }),
    ensures
        slot_reads(d.emitted(map, OpKindV::MapSet { key, value }).tree, map, key) == Some(
            ElementV::Scalar(value),
        ),
{
    lemma_slot_read(d, map, key, OpKindV::MapSet { key, value });
}

/// A register set at a key reads, there, the value it was set to.
pub proof fn law_a_set_register_is_read(d: DocV, map: ElementId, key: Seq<u8>, value: ScalarV)
    requires
        goes_in(d, map, OpKindV::RegisterSet { key, value }),
        overwrites(d, map, key, OpKindV::RegisterSet { key, value }),
    ensures
        slot_reads(d.emitted(map, OpKindV::RegisterSet { key, value }).tree, map, key) matches Some(
            ElementV::Register(r),
        ) && r.value == value && r.id == derived_id(map, key, ElementKind::Register),
{
    lemma_slot_read(d, map, key, OpKindV::RegisterSet { key, value });
}

/// A deleted key reads nothing.
pub proof fn law_a_deleted_key_reads_nothing(d: DocV, map: ElementId, key: Seq<u8>)
    requires
        goes_in(d, map, OpKindV::MapDelete { key }),
        overwrites(d, map, key, OpKindV::MapDelete { key }),
    ensures
        slot_reads(d.emitted(map, OpKindV::MapDelete { key }).tree, map, key) is None,
{
    lemma_slot_read(d, map, key, OpKindV::MapDelete { key });
}

/// What a create makes: what is at the key, under the id its kind and key derive.
pub open spec fn made(map: ElementId, kind: OpKindV) -> Option<(Seq<u8>, ElementV)> {
    match kind {
        OpKindV::MapCreate { key } => Some(
            (key, ElementV::LwwMap(derived_id(map, key, ElementKind::LwwMap))),
        ),
        OpKindV::ListCreate { key } => Some(
            (key, ElementV::List(derived_id(map, key, ElementKind::List))),
        ),
        OpKindV::TextCreate { key } => Some(
            (key, ElementV::Text(derived_id(map, key, ElementKind::Text))),
        ),
        OpKindV::XmlElementCreate { key, tag } => Some(
            (key, ElementV::XmlElement(element_node_id(map, key, tag))),
        ),
        OpKindV::XmlFragmentCreate { key } => Some(
            (key, ElementV::XmlFragment(fragment_node_id(map, key))),
        ),
        _ => None,
    }
}

/// Whether a container is there, with all that belongs to it.
pub open spec fn is_here(t: TreeV, e: ElementV) -> bool {
    match e {
        ElementV::LwwMap(id) => t.maps.dom().contains(id),
        ElementV::List(id) => t.lists.dom().contains(id),
        ElementV::Text(id) => t.texts.dom().contains(id),
        ElementV::XmlElement(id) => t.xml_elements.dom().contains(id) && t.maps.dom().contains(
            node_attrs_id(id),
        ) && t.lists.dom().contains(node_children_id(id)),
        ElementV::XmlFragment(id) => t.xml_fragments.dom().contains(id) && t.lists.dom().contains(
            node_children_id(id),
        ),
        _ => true,
    }
}

/// A container created at a key is read there, and is there to be edited: a cursor that
/// descends into it finds it.
pub proof fn law_a_created_container_is_read(d: DocV, map: ElementId, kind: OpKindV)
    requires
        goes_in(d, map, kind),
        made(map, kind) is Some,
        overwrites(d, map, made(map, kind)->Some_0.0, kind),
    ensures
        slot_reads(d.emitted(map, kind).tree, map, made(map, kind)->Some_0.0) == Some(
            made(map, kind)->Some_0.1,
        ),
        is_here(d.emitted(map, kind).tree, made(map, kind)->Some_0.1),
        kind matches OpKindV::XmlElementCreate { key, tag } ==> {
            let id = element_node_id(map, key, tag);
            !d.tree.xml_elements.dom().contains(id) ==> tag_reads(d.emitted(map, kind).tree, id)
                == tag
        },
{
    let (key, e) = made(map, kind)->Some_0;
    lemma_slot_read(d, map, key, kind);
    lemma_edited(d, map, kind);
    let op = op_of(d, map, kind);
    let t = d.tree;
    let u = d.emitted(map, kind).tree;
    lemma_effect(t, op);
    let c = match kind {
        OpKindV::MapCreate { .. } => ContainerV::LwwMap,
        OpKindV::ListCreate { .. } => ContainerV::List,
        OpKindV::TextCreate { .. } => ContainerV::Text,
        OpKindV::XmlElementCreate { tag, .. } => ContainerV::XmlElement(tag),
        _ => ContainerV::XmlFragment,
    };
    let raise = effect(op, t.owner_of(op))[0];
    let child = c.child_id(map, key);
    let new = born(child, c);
    let all = created(map, key, op.stamp, c);
    let rest = all.skip(new.len() as int);
    assert(all =~= new + rest);
    assert(effect(op, t.owner_of(op)) =~= seq![raise] + new + rest);
    let p = t.plain();
    lemma_writes_concat(p, seq![raise] + new, rest);
    lemma_writes_concat(p, seq![raise], new);
    lemma_writes_one(p, raise);
    let q = p.write(raise);
    lemma_born_here(q, child, c);
    let at = PlaceV { slot: Some((map, key)), ..nowhere() };
    assert forall|i: int| 0 <= i < rest.len() implies spares(#[trigger] rest[i], at) by {}
    lemma_writes_spare(q.writes(new), rest, at);
    lemma_fragments_stay(q.writes(new), rest);
    assert(u.plain() == q.writes(new).writes(rest));
    let v = u.plain();
    assert(is_here(v, e));
}

proof fn lemma_fragments_stay(t: TreeV, ws: Seq<WriteV>)
    ensures
        forall|x: ElementId| #[trigger]
            t.xml_fragments.dom().contains(x) ==> t.writes(ws).xml_fragments.dom().contains(x),
    decreases ws.len(),
{
    if ws.len() > 0 {
        lemma_fragments_stay(t, ws.drop_last());
    }
}

/// What is made is there.
proof fn lemma_born_here(t: TreeV, id: ElementId, c: ContainerV)
    ensures
        is_here(t.writes(born(id, c)), c.handle(id)),
        c matches ContainerV::XmlElement(tag) ==> !t.xml_elements.dom().contains(id)
            ==> tag_reads(t.writes(born(id, c)), id) == tag,
{
    reveal_with_fuel(TreeV::writes, 6);
    let ws = born(id, c);
    match c {
        ContainerV::LwwMap => {
            assert(ws.drop_last() =~= Seq::empty());
        },
        ContainerV::List => {
            assert(ws.drop_last() =~= Seq::empty());
        },
        ContainerV::Text => {
            assert(ws.drop_last() =~= Seq::empty());
        },
        ContainerV::XmlElement(_) => {
            let a = ws.drop_last();
            let b = a.drop_last();
            let c = b.drop_last();
            let d = c.drop_last();
            assert(d.drop_last() =~= Seq::empty());
        },
        ContainerV::XmlFragment => {
            let a = ws.drop_last();
            let b = a.drop_last();
            assert(b.drop_last() =~= Seq::empty());
        },
    }
}

// --- counts ---

/// A sum taken apart at one client.
proof fn lemma_count_apart(m: Map<ClientId, Tally>, q: Seq<ClientId>, i: int)
    requires
        0 <= i < q.len(),
    ensures
        count_over(m, q) == count_over(m, q.remove(i)) + m[q[i]].inc - m[q[i]].dec,
    decreases q.len(),
{
    if i == q.len() - 1 {
        assert(q.remove(i) =~= q.drop_last());
    } else {
        lemma_count_apart(m, q.drop_last(), i);
        assert(q.remove(i).drop_last() =~= q.drop_last().remove(i));
        assert(q.remove(i).last() == q.last());
    }
}

proof fn lemma_count_same(m: Map<ClientId, Tally>, n: Map<ClientId, Tally>, q: Seq<ClientId>)
    requires
        forall|i: int| 0 <= i < q.len() ==> m[#[trigger] q[i]] == n[q[i]],
    ensures
        count_over(m, q) == count_over(n, q),
    decreases q.len(),
{
    if q.len() > 0 {
        let h = q.drop_last();
        assert forall|i: int| 0 <= i < h.len() implies m[#[trigger] h[i]] == n[h[i]] by {
            assert(h[i] == q[i]);
        }
        lemma_count_same(m, n, h);
        assert(m[q[q.len() - 1]] == n[q[q.len() - 1]]);
    }
}

/// What a counter reads changes by what one tally of it does.
proof fn lemma_count_moves(m: Map<ClientId, Tally>, client: ClientId, t: Tally)
    requires
        m.dom().finite(),
    ensures
        count_of(m.insert(client, t)) - count_of(m) == (t.inc - t.dec) - (tally_of(m, client).inc
            - tally_of(m, client).dec),
{
    let n = m.insert(client, t);
    let a = ordered::<ClientId>(m.dom());
    let b = ordered::<ClientId>(n.dom());
    lemma_ordered_exists::<ClientId>(m.dom());
    lemma_ordered_exists::<ClientId>(n.dom());
    assert(b.to_set().contains(client));
    let i = b.index_of(client);
    lemma_count_apart(n, b, i);
    let c = b.remove(i);
    assert forall|x: int, y: int| 0 <= x < y < c.len() implies ClientId::before(
        #[trigger] c[x],
        #[trigger] c[y],
    ) by {
        assert(c[x] == b[if x < i { x } else { x + 1 }]);
        assert(c[y] == b[if y < i { y } else { y + 1 }]);
    }
    assert forall|x: int| 0 <= x < c.len() implies #[trigger] c[x] != client by {
        let j = if x < i { x } else { x + 1 };
        assert(c[x] == b[j]);
        ClientId::before_total(b[j], b[i]);
    }
    assert forall|x: int| 0 <= x < c.len() implies m[#[trigger] c[x]] == n[c[x]] by {}
    lemma_count_same(m, n, c);
    if m.dom().contains(client) {
        assert(n.dom() =~= m.dom());
        assert(a == b);
        lemma_count_apart(m, b, i);
    } else {
        assert forall|x: ClientId| c.to_set().contains(x) <==> m.dom().contains(x) by {
            if c.contains(x) {
                let j = c.index_of(x);
                assert(c[j] == b[if j < i { j } else { j + 1 }]);
                assert(b.to_set().contains(x));
            }
            if m.dom().contains(x) {
                assert(b.to_set().contains(x));
                let j = b.index_of(x);
                assert(c[if j < i { j } else { j - 1 }] == x);
            }
        }
        assert(c.to_set() =~= m.dom());
        lemma_rises_unique::<ClientId>(c, a);
    }
}

/// What a client has counted, one way or the other, at a key.
pub open spec fn tallied(t: TreeV, id: ElementId, client: ClientId) -> Tally {
    if t.counters.dom().contains(id) {
        tally_of(t.counters[id].tallies, client)
    } else {
        Tally { inc: 0, dec: 0 }
    }
}

/// A count moves a counter by its amount: the counter is at the key afterwards, and reads
/// that much more, or that much less. What one client has counted so far fits its tally.
pub proof fn law_a_count_moves_by_its_amount(
    d: DocV,
    map: ElementId,
    key: Seq<u8>,
    amount: u32,
    up: bool,
)
    requires
        ({
            let id = derived_id(map, key, ElementKind::Counter);
            let kind = if up {
                OpKindV::CounterInc { key, amount }
            } else {
                OpKindV::CounterDec { key, amount }
            };
            &&& goes_in(d, map, kind)
            &&& overwrites(d, map, key, kind)
            &&& d.tree.counters.dom().contains(id) ==> d.tree.counters[id].tallies.dom().finite()
            &&& up ==> tallied(d.tree, id, d.client).inc + amount <= u32::MAX
            &&& !up ==> tallied(d.tree, id, d.client).dec + amount <= u32::MAX
        }),
    ensures
        ({
            let id = derived_id(map, key, ElementKind::Counter);
            let u = d.emitted(
                map,
                if up {
                    OpKindV::CounterInc { key, amount }
                } else {
                    OpKindV::CounterDec { key, amount }
                },
            ).tree;
            &&& slot_reads(u, map, key) == Some(ElementV::Counter(id))
            &&& count_reads(u, id) == count_reads(d.tree, id) + if up {
                amount as int
            } else {
                -(amount as int)
            }
        }),
{
    let id = derived_id(map, key, ElementKind::Counter);
    let kind = if up {
        OpKindV::CounterInc { key, amount }
    } else {
        OpKindV::CounterDec { key, amount }
    };
    lemma_slot_read(d, map, key, kind);
    lemma_edited(d, map, kind);
    lemma_counted(d.tree, op_of(d, map, kind), key, amount, up);
}

/// What a counter reads, and what its tallies are, after a count.
pub(crate) proof fn lemma_counted(t: TreeV, op: OpV, key: Seq<u8>, amount: u32, up: bool)
    requires
        t.takes(op),
        op.kind == if up {
            OpKindV::CounterInc { key, amount }
        } else {
            OpKindV::CounterDec { key, amount }
        },
        ({
            let id = derived_id(op.target, key, ElementKind::Counter);
            &&& t.counters.dom().contains(id) ==> t.counters[id].tallies.dom().finite()
            &&& up ==> tallied(t, id, op.id.client).inc + amount <= u32::MAX
            &&& !up ==> tallied(t, id, op.id.client).dec + amount <= u32::MAX
        }),
    ensures
        ({
            let id = derived_id(op.target, key, ElementKind::Counter);
            let u = t.apply_kind(op.target, op.kind, op.stamp, op.id.client);
            let old = tallied(t, id, op.id.client);
            &&& count_reads(u, id) == count_reads(t, id) + if up {
                amount as int
            } else {
                -(amount as int)
            }
            &&& u.counters.dom().contains(id)
            &&& u.counters[id].tallies.dom().finite()
            &&& tallied(u, id, op.id.client) == if up {
                Tally { inc: (old.inc + amount) as u32, dec: old.dec }
            } else {
                Tally { inc: old.inc, dec: (old.dec + amount) as u32 }
            }
        }),
{
    let id = derived_id(op.target, key, ElementKind::Counter);
    let client = op.id.client;
    let u = t.apply_kind(op.target, op.kind, op.stamp, client);
    let ws = effect(op, t.owner_of(op));
    lemma_effect(t, op);
    let p = t.plain();
    lemma_writes_concat(p, seq![ws[0]], seq![ws[1], ws[2]]);
    assert(ws =~= seq![ws[0]] + seq![ws[1], ws[2]]);
    lemma_writes_one(p, ws[0]);
    lemma_writes_two(p.write(ws[0]), ws[1], ws[2]);
    let q = u.plain();
    assert(q.counters == p.write(ws[0]).write(ws[1]).counters);
    assert(count_reads(q, id) == count_reads(u, id));
    assert(count_reads(p, id) == count_reads(t, id));
    let none = Map::<ClientId, Tally>::empty();
    let m = if t.counters.dom().contains(id) {
        t.counters[id].tallies
    } else {
        none
    };
    let old = tally_of(m, client);
    let new = if up {
        Tally { inc: (old.inc + amount) as u32, dec: old.dec }
    } else {
        Tally { inc: old.inc, dec: (old.dec + amount) as u32 }
    };
    assert(q.counters[id].tallies =~= m.insert(client, new));
    lemma_count_moves(m, client, new);
    lemma_ordered_exists::<ClientId>(none.dom());
    assert(count_of(none) == 0) by {
        let o = ordered::<ClientId>(none.dom());
        if o.len() > 0 {
            assert(o.to_set().contains(o[0]));
        }
    }
}

// --- sequences ---

/// Whether an edit is stamped later than every id of a sequence and everything its ids
/// attach to.
pub open spec fn passes(d: DocV, target: ElementId, kind: OpKindV, l: ListV) -> bool {
    &&& l.places.dom().finite()
    &&& forall|y: Stamp| #[trigger]
        l.places.dom().contains(y) ==> reached(d, target, kind, y) && (l.places[y].parent matches Some(
            x,
        ) ==> reached(d, target, kind, x))
    &&& forall|y: Stamp| #[trigger] l.items.dom().contains(y) ==> reached(d, target, kind, y)
}

/// A scalar inserted at an index of a list is read there, and what was there on stands one
/// further.
pub proof fn law_an_inserted_item_is_read_at_its_index(
    d: DocV,
    list: ElementId,
    index: nat,
    value: ScalarV,
)
    requires
        d.tree.lists.dom().contains(list),
        index <= list_live(d.tree.lists[list]).len(),
        forall|anchor: Anchor|
            (#[trigger] d.mint(list, OpKindV::ListInsert { value, anchor })) is Some && passes(
                d,
                list,
                OpKindV::ListInsert { value, anchor },
                d.tree.lists[list],
            ),
    ensures
        d.with_item(list, index, value).tree.lists.dom().contains(list),
        list_values(d.with_item(list, index, value).tree.lists[list]) == list_values(
            d.tree.lists[list],
        ).insert(index as int, ElementV::Scalar(value)),
        alike_but(
            d.tree,
            d.with_item(list, index, value).tree,
            PlaceV { list: Some(list), ..nowhere() },
        ),
{
    let l = d.tree.lists[list];
    let anchor = list_place(l, index, None);
    let kind = OpKindV::ListInsert { value, anchor };
    let s = d.mint(list, kind)->Some_0;
    assert(passes(d, list, kind, l));
    law_mints_clear_the_record(d, list, kind);
    law_an_emitted_edit_touches_only_its_place(d, list, kind);
    lemma_edited(d, list, kind);
    reveal(TreeV::record);
    reveal(TreeV::list_insert);
    law_insert_lands_at_its_index(l, s, ElementV::Scalar(value), index);
}

/// The item deleted at an index of a list is out of it, and nothing else moves.
pub proof fn law_a_deleted_item_is_out(d: DocV, list: ElementId, index: nat)
    requires
        d.tree.lists.dom().contains(list),
        d.tree.lists[list].places.dom().finite(),
        index < list_live(d.tree.lists[list]).len(),
        goes_in(
            d,
            list,
            OpKindV::ListDelete { id: list_live(d.tree.lists[list])[index as int] },
        ),
    ensures
        d.without_item(list, index).tree.lists.dom().contains(list),
        list_values(d.without_item(list, index).tree.lists[list]) == list_values(
            d.tree.lists[list],
        ).remove(index as int),
        alike_but(
            d.tree,
            d.without_item(list, index).tree,
            PlaceV { list: Some(list), ..nowhere() },
        ),
{
    let l = d.tree.lists[list];
    let id = list_live(l)[index as int];
    let kind = OpKindV::ListDelete { id };
    law_an_emitted_edit_touches_only_its_place(d, list, kind);
    lemma_edited(d, list, kind);
    reveal(TreeV::record);
    reveal(TreeV::list_delete);
    law_delete_removes_only_its_item(l, index as int);
    let m = list_delete(l, id);
    law_order_has_no_repeats(l.places);
    lemma_live_no_dup(l, order(l.places));
    assert(d.without_item(list, index).tree.lists[list] == m);
    assert forall|i: int| 0 <= i < list_live(m).len() implies #[trigger] list_values(m)[i]
        == list_values(l).remove(index as int)[i] by {
        let j = if i < index { i } else { i + 1 };
        assert(list_live(m)[i] == list_live(l)[j]);
        assert(list_live(l)[j] != id);
    }
    assert(list_values(m) =~= list_values(l).remove(index as int));
}

/// Text inserted at an index of a text is read there, whole, and what was there on stands
/// after it.
pub proof fn law_inserted_text_is_read_at_its_index(
    d: DocV,
    text: ElementId,
    index: nat,
    s: Seq<char>,
)
    requires
        d.tree.texts.dom().contains(text),
        index <= list_live(d.tree.texts[text]).len(),
        s.len() > 0,
        forall|anchor: Anchor|
            (#[trigger] d.mint(text, OpKindV::TextInsert { s, anchor })) is Some && passes(
                d,
                text,
                OpKindV::TextInsert { s, anchor },
                d.tree.texts[text],
            ),
    ensures
        d.with_chars(text, index, s).tree.texts.dom().contains(text),
        text_of(d.with_chars(text, index, s).tree.texts[text]) == text_of(
            d.tree.texts[text],
        ).take(index as int) + s + text_of(d.tree.texts[text]).skip(index as int),
        alike_but(
            d.tree,
            d.with_chars(text, index, s).tree,
            PlaceV { text: Some(text), ..nowhere() },
        ),
{
    let l = d.tree.texts[text];
    let anchor = list_place(l, index, None);
    let kind = OpKindV::TextInsert { s, anchor };
    let stamp = d.mint(text, kind)->Some_0;
    assert(passes(d, text, kind, l));
    law_mints_clear_the_record(d, text, kind);
    law_an_emitted_edit_touches_only_its_place(d, text, kind);
    lemma_edited(d, text, kind);
    reveal(TreeV::record);
    reveal(DocV::mint);
    assert(run_is_new(l, stamp, s.len()));
    law_text_insert_lands_at_its_index(l, stamp, s, index);
}

/// The codepoints deleted from an index of a text on are out of it, as many as were asked
/// for or are there, and nothing else moves.
pub proof fn law_deleted_text_is_out(d: DocV, text: ElementId, index: nat, count: nat)
    requires
        d.tree.texts.dom().contains(text),
        d.tree.texts[text].places.dom().finite(),
        forall|ids: Seq<Stamp>| (#[trigger] d.mint(text, OpKindV::TextDelete { ids })) is Some,
    ensures
        ({
            let u = d.without_chars(text, index, count).tree;
            let was = text_of(d.tree.texts[text]);
            &&& u.texts.dom().contains(text)
            &&& index + count <= was.len() ==> text_of(u.texts[text]) == was.take(index as int)
                + was.skip((index + count) as int)
            &&& index <= was.len() < index + count ==> text_of(u.texts[text]) == was.take(
                index as int,
            )
            &&& was.len() < index ==> text_of(u.texts[text]) == was
            &&& alike_but(d.tree, u, PlaceV { text: Some(text), ..nowhere() })
        }),
{
    let l = d.tree.texts[text];
    let live = list_live(l);
    let ids = d.char_ids(text, index, count);
    let was = text_of(l);
    let u = d.without_chars(text, index, count).tree;
    assert(was.len() == live.len());
    if ids.len() > 0 {
        let kind = OpKindV::TextDelete { ids };
        assert(d.mint(text, kind) is Some);
        law_an_emitted_edit_touches_only_its_place(d, text, kind);
        lemma_edited(d, text, kind);
        reveal(TreeV::record);
        let k = ids.len();
        assert(ids =~= live.subrange(index as int, (index + k) as int));
        lemma_cut(l, index as int, k);
        law_order_has_no_repeats(l.places);
        lemma_live_no_dup(l, order(l.places));
        let m = text_delete(l, ids);
        assert(u.texts[text] == m);
        assert forall|i: int| 0 <= i < list_live(m).len() implies #[trigger] text_of(m)[i] == (
        was.take(index as int) + was.skip((index + k) as int))[i] by {
            let j = if i < index { i } else { i + k };
            assert(list_live(m)[i] == live[j]);
            lemma_live_in_items(m, order(m.places), i);
        }
        assert(text_of(m) =~= was.take(index as int) + was.skip((index + k) as int));
        assert(was.skip(was.len() as int) =~= Seq::empty());
        if index + count > was.len() {
            assert(index + k == was.len());
            assert(text_of(m) =~= was.take(index as int));
        }
    } else {
        assert(index >= live.len() || count == 0);
        assert(u == d.tree);
        if index + count <= was.len() {
            assert(was =~= was.take(index as int) + was.skip((index + count) as int));
        } else if index <= was.len() {
            assert(was =~= was.take(index as int));
        }
    }
}

// --- children ---

/// An element or a run of text inserted among a node's children is read at its index, under
/// the id its cursor has, and is there to be edited. What was there on stands one further.
pub proof fn law_an_inserted_child_is_read_at_its_index(
    d: DocV,
    list: ElementId,
    tag: Option<Seq<u8>>,
    index: nat,
)
    requires
        index <= list_live(d.tree.lists[list]).len(),
        forall|anchor: Anchor|
            #[trigger]
            goes_in(d, list, OpKindV::XmlInsertChild { tag, anchor }) && passes(
                d,
                list,
                OpKindV::XmlInsertChild { tag, anchor },
                d.tree.lists[list],
            ),
    ensures
        ({
            let u = d.with_inserted(list, tag, index).tree;
            let child = match tag {
                Some(_) => ElementV::XmlElement(
                    d.inserted_id(list, tag, index, ElementKind::XmlElement),
                ),
                None => ElementV::Text(d.inserted_id(list, tag, index, ElementKind::Text)),
            };
            &&& u.lists.dom().contains(list)
            &&& list_values(u.lists[list]) == list_values(d.tree.lists[list]).insert(
                index as int,
                child,
            )
            &&& is_here(u, child)
            &&& (child matches ElementV::XmlElement(id) ==> !d.tree.xml_elements.dom().contains(id)
                ==> tag == Some(tag_reads(u, id)))
            &&& alike_but(d.tree, u, PlaceV { list: Some(list), ..nowhere() })
        }),
{
    let t = d.tree;
    let l = t.lists[list];
    let anchor = list_place(l, index, None);
    let kind = OpKindV::XmlInsertChild { tag, anchor };
    let op = op_of(d, list, kind);
    assert(goes_in(d, list, kind));
    law_mints_clear_the_record(d, list, kind);
    law_an_emitted_edit_touches_only_its_place(d, list, kind);
    lemma_edited(d, list, kind);
    lemma_effect(t, op);
    let c = child_container(tag);
    let child = spec_xml_child_id(list, op.stamp, c.kind());
    let ws = effect(op, t.owner_of(op));
    let new = born(child, c);
    let n: int = 1 + new.len() as int + 2;
    let pre = ws.take(n);
    let put = ws[n];
    let post = ws.skip(n + 1);
    assert(put == WriteV::ListPut { list, id: op.stamp, value: c.handle(child), anchor });
    assert(ws =~= pre + (seq![put] + post));
    let p = t.plain();
    lemma_writes_concat(p, pre, seq![put] + post);
    lemma_writes_concat(p.writes(pre), seq![put], post);
    lemma_writes_one(p.writes(pre), put);
    let a = p.writes(pre);
    let b = a.write(put);
    assert forall|i: int| 0 <= i < pre.len() implies spares(#[trigger] pre[i], nowhere()) by {
        assert(pre[i] == ws[i]);
    }
    assert forall|i: int| 0 <= i < post.len() implies spares(#[trigger] post[i], nowhere()) by {
        assert(post[i] == ws[n + 1 + i]);
    }
    lemma_writes_spare(p, pre, nowhere());
    lemma_writes_spare(b, post, nowhere());
    let u = d.emitted(list, kind).tree;
    assert(u.plain() == b.writes(post));
    assert(p.lists.dom().contains(list));
    assert(a.lists.dom().contains(list) && a.lists[list] == p.lists[list]);
    assert(b.lists.dom().contains(list));
    assert(u.plain().lists.dom().contains(list));
    assert(u.plain().lists[list] == list_insert(a.lists[list], op.stamp, c.handle(child), anchor));
    law_insert_lands_at_its_index(l, op.stamp, c.handle(child), index);
    lemma_flag_unseen(
        u.lists[list],
        list_insert(l, op.stamp, c.handle(child), anchor),
    );
    let raise = seq![ws[0]];
    let ties = pre.skip(1 + new.len() as int);
    assert(pre =~= raise + new + ties);
    lemma_writes_concat(p, raise + new, ties);
    lemma_writes_concat(p, raise, new);
    lemma_born_here(p.writes(raise), child, c);
    assert forall|i: int| 0 <= i < ties.len() implies spares(#[trigger] ties[i], nowhere()) by {
        assert(ties[i] == ws[1 + new.len() + i]);
    }
    lemma_writes_spare(p.writes(raise + new), ties, nowhere());
    lemma_writes_one(p, ws[0]);
    assert(is_here(a, c.handle(child)));
    assert(is_here(b, c.handle(child)));
    assert(is_here(u.plain(), c.handle(child)));
}

// --- annotations ---

/// An annotation made over a span says what it was given: where it starts and ends, its name
/// and its payload. It is not deleted, and a container payload is there to be edited.
pub proof fn law_an_annotation_says_what_it_was_given(
    d: DocV,
    start: RangeAnchor,
    end: RangeAnchor,
    payload: RangedInitV,
    name: Option<Seq<u8>>,
)
    requires
        goes_in(d, root_element(), OpKindV::RangedCreate { start, end, payload, name }),
    ensures
        ({
            let kind = OpKindV::RangedCreate { start, end, payload, name };
            let u = d.emitted(root_element(), kind).tree;
            let id = spec_ranged_id(d.stamp_for(root_element(), kind));
            &&& u.ranged.dom().contains(id)
            &&& u.ranged[id].start == start
            &&& u.ranged[id].end == end
            &&& u.ranged[id].name == name
            &&& !u.ranged[id].tombstone
            &&& match payload {
                RangedInitV::Scalar(v) => u.ranged[id].payload matches PayloadV::Scalar { value, .. }
                    && value == v,
                RangedInitV::Composite(k) => u.ranged[id].payload == (PayloadV::Composite {
                    kind: k,
                }) && u.payload_of(id, k) == Some(spec_payload_id(id, k)),
            }
            &&& alike_but(d.tree, u, nowhere())
        }),
{
    let kind = OpKindV::RangedCreate { start, end, payload, name };
    law_an_emitted_edit_touches_only_its_place(d, root_element(), kind);
    lemma_edited(d, root_element(), kind);
    reveal(TreeV::record);
    reveal(TreeV::ranged_create);
}

/// A payload set on an annotation is what it says from then on, where its payload is a
/// scalar; the rest of it stays as it was.
pub proof fn law_a_set_payload_is_said(d: DocV, id: ElementId, value: ScalarV)
    requires
        d.mint(root_element(), OpKindV::RangedSetPayload { id, payload: value }) is Some,
        d.tree.ranged.dom().contains(id),
        d.tree.ranged[id].payload matches PayloadV::Scalar { stamp, .. } ==> reached(
            d,
            root_element(),
            OpKindV::RangedSetPayload { id, payload: value },
            stamp,
        ),
    ensures
        ({
            let u = d.with_payload(id, OpKindV::RangedSetPayload { id, payload: value }).tree;
            let was = d.tree.ranged[id];
            &&& u.ranged.dom().contains(id)
            &&& u.ranged[id].start == was.start
            &&& u.ranged[id].end == was.end
            &&& u.ranged[id].name == was.name
            &&& u.ranged[id].tombstone == was.tombstone
            &&& was.payload is Scalar ==> (u.ranged[id].payload matches PayloadV::Scalar {
                value: v,
                ..
            } && v == value)
            &&& !(was.payload is Scalar) ==> u.ranged[id].payload == was.payload
            &&& alike_but(d.tree, u, PlaceV { note: Some(id), ..nowhere() })
        }),
{
    let kind = OpKindV::RangedSetPayload { id, payload: value };
    law_an_emitted_edit_touches_only_its_place(d, root_element(), kind);
    law_mints_clear_the_record(d, root_element(), kind);
    lemma_edited(d, root_element(), kind);
    reveal(TreeV::record);
    reveal(TreeV::ranged_set);
}

/// A deleted annotation is deleted; the rest of it stays as it was.
pub proof fn law_a_deleted_annotation_is_gone(d: DocV, id: ElementId)
    requires
        goes_in(d, root_element(), OpKindV::RangedDelete { id }),
    ensures
        ({
            let u = d.emitted(root_element(), OpKindV::RangedDelete { id }).tree;
            let was = d.tree.ranged[id];
            &&& u.ranged.dom().contains(id)
            &&& u.ranged[id].tombstone
            &&& u.ranged[id].start == was.start
            &&& u.ranged[id].end == was.end
            &&& u.ranged[id].name == was.name
            &&& u.ranged[id].payload == was.payload
            &&& forall|k: ElementKind| (#[trigger] u.payload_of(id, k)) is None
            &&& alike_but(d.tree, u, PlaceV { note: Some(id), ..nowhere() })
        }),
{
    let kind = OpKindV::RangedDelete { id };
    law_an_emitted_edit_touches_only_its_place(d, root_element(), kind);
    lemma_edited(d, root_element(), kind);
    reveal(TreeV::record);
    reveal(TreeV::ranged_delete);
}

// --- grants ---

/// A grant records what it was given, revoked by nobody, and leaves every other alone.
pub proof fn law_a_grant_records_what_it_was_given(
    d: DocV,
    subject: AclSubjectV,
    grant: AclGrantV,
    effect: AclEffect,
    path: Seq<u8>,
    grantor: ClientId,
)
    requires
        d.mint(root_element(), OpKindV::AclGrant { subject, grant, effect, path, grantor }) is Some,
        ({
            let kind = OpKindV::AclGrant { subject, grant, effect, path, grantor };
            !d.tree.acl.dom().contains(spec_acl_id(d.stamp_for(root_element(), kind)))
        }),
    ensures
        ({
            let kind = OpKindV::AclGrant { subject, grant, effect, path, grantor };
            let u = d.emitted(root_element(), kind).tree;
            let id = spec_acl_id(d.stamp_for(root_element(), kind));
            &&& u.acl.dom().contains(id)
            &&& u.acl[id].subject == subject
            &&& u.acl[id].grant == grant
            &&& u.acl[id].effect == effect
            &&& u.acl[id].path == path
            &&& u.acl[id].grantor == grantor
            &&& u.acl[id].revokers == Set::<ClientId>::empty()
            &&& alike_but(d.tree, u, nowhere())
        }),
{
    let kind = OpKindV::AclGrant { subject, grant, effect, path, grantor };
    law_an_emitted_edit_touches_only_its_place(d, root_element(), kind);
    lemma_edited(d, root_element(), kind);
    reveal(TreeV::record);
    reveal(TreeV::acl_grant);
}

/// A grant revoked has this replica among those who revoked it; the rest of it stays.
pub proof fn law_a_revoked_grant_names_its_revoker(d: DocV, id: ElementId)
    requires
        goes_in(d, root_element(), OpKindV::AclRevoke { id }),
    ensures
        ({
            let u = d.emitted(root_element(), OpKindV::AclRevoke { id }).tree;
            let was = d.tree.acl[id];
            &&& u.acl.dom().contains(id)
            &&& forall|c: ClientId| #[trigger]
                u.acl[id].revokers.contains(c) <==> c == d.client || was.revokers.contains(c)
            &&& u.acl[id].subject == was.subject
            &&& u.acl[id].grant == was.grant
            &&& u.acl[id].effect == was.effect
            &&& u.acl[id].path == was.path
            &&& u.acl[id].grantor == was.grantor
            &&& alike_but(d.tree, u, PlaceV { grant: Some(id), ..nowhere() })
        }),
{
    let kind = OpKindV::AclRevoke { id };
    law_an_emitted_edit_touches_only_its_place(d, root_element(), kind);
    lemma_edited(d, root_element(), kind);
    reveal(TreeV::record);
    reveal(TreeV::acl_revoke);
}

// --- descending ---

/// Descending into a map leads to the map at the key: it is read there afterwards and is
/// there to be edited. Descending where it is already emits nothing.
pub proof fn law_descending_leads_to_the_map(d: DocV, map: ElementId, key: Seq<u8>)
    requires
        goes_in(d, map, OpKindV::MapCreate { key }),
        overwrites(d, map, key, OpKindV::MapCreate { key }),
    ensures
        ({
            let e = d.with_map(map, key);
            let child = derived_id(map, key, ElementKind::LwwMap);
            &&& slot_reads(e.tree, map, key) == Some(ElementV::LwwMap(child))
            &&& e.tree.maps.dom().contains(child)
            &&& e.with_map(map, key) == e
            &&& alike_but(d.tree, e.tree, PlaceV { slot: Some((map, key)), ..nowhere() })
        }),
{
    let kind = OpKindV::MapCreate { key };
    law_an_emitted_edit_touches_only_its_place(d, map, kind);
    law_a_created_container_is_read(d, map, kind);
    let e = d.emitted(map, kind);
    lemma_edited(d, map, kind);
    lemma_slot_after(d.tree, op_of(d, map, kind));
    assert(e.tree.maps.dom().contains(map));
    assert(e.tree.live_at(map, key) == slot_reads(e.tree, map, key));
}

/// Descending at a key that has an element leads to its attributes; at any other, to a map.
pub proof fn law_descending_finds_an_elements_attributes(d: DocV, map: ElementId, key: Seq<u8>)
    ensures
        match slot_reads(d.tree, map, key) {
            Some(ElementV::XmlElement(x)) => d.child_at(map, key) == node_attrs_id(x)
                && d.with_child(map, key) == d,
            _ => d.child_at(map, key) == derived_id(map, key, ElementKind::LwwMap) && d.with_child(
                map,
                key,
            ) == d.with_map(map, key),
        },
        match slot_reads(d.tree, map, key) {
            Some(ElementV::XmlElement(x)) => d.tree.children_at(map, key) == Some(
                node_children_id(x),
            ),
            Some(ElementV::XmlFragment(x)) => d.tree.children_at(map, key) == Some(
                node_children_id(x),
            ),
            _ => d.tree.children_at(map, key) is None,
        },
{
}

} // verus!
