//! Cursors: editing a replica in place.
//!
//! A cursor holds the replica and the id of one container in it. Each intention emits the
//! op it stands for; descending hands the replica on to a cursor over what is inside.
//! Sequence ops carry their placement, read where the cursor stands, so they apply the same
//! on every replica.

use crate::acl::{AclEffect, AclGrant, AclSubject};
use crate::annot::{Payload, PayloadV, Placement};
use crate::clientid::ClientId;
use crate::doc::{DocV, Document};
use crate::element::{Element, ElementV};
use crate::elementid::{derived_id, ElementId, ElementKind};
use crate::identity::{
    acl_id, payload_id, ranged_id, root_element, root_id, spec_acl_id, spec_payload_id,
    spec_ranged_id, spec_unmintable, spec_xml_child_id, unmintable_stamp, xml_child_id,
};
use crate::map::live_value;
use crate::mint::grouped_ops;
use crate::op::{ops_view, Op, OpKind, OpKindV, OpV};
use crate::ranged::{RangeAnchor, RangedInit, RangedInitV};
use crate::scalar::{Scalar, ScalarV};
use crate::sequence::{list_live, list_place, live_set};
use crate::stamp::{stamp_lt, Stamp};
use crate::text::Text;
use crate::tree::{Tree, TreeV};
use crate::xml::{
    element_node_id, fragment_node_id, node_attrs_id, node_children_id, XmlElement, XmlFragment,
};
use vstd::prelude::*;
use vstd::slice::slice_to_vec;

verus! {

// --- what an intention does ---

impl TreeV {
    /// What a map has at a key.
    pub open spec fn live_at(self, map: ElementId, key: Seq<u8>) -> Option<ElementV> {
        if self.maps.dom().contains(map) {
            live_value(self.slot(map, key))
        } else {
            None
        }
    }

    /// Whether a key already has the map that descending would make there.
    pub open spec fn has_map_at(self, map: ElementId, key: Seq<u8>) -> bool {
        let child = derived_id(map, key, ElementKind::LwwMap);
        self.maps.dom().contains(child) && self.live_at(map, key) == Some(ElementV::LwwMap(child))
    }

    /// The attributes of the element at a key.
    pub open spec fn attrs_at(self, map: ElementId, key: Seq<u8>) -> Option<ElementId> {
        match self.live_at(map, key) {
            Some(ElementV::XmlElement(x)) => Some(node_attrs_id(x)),
            _ => None,
        }
    }

    /// The children of the element or fragment at a key.
    pub open spec fn children_at(self, map: ElementId, key: Seq<u8>) -> Option<ElementId> {
        match self.live_at(map, key) {
            Some(ElementV::XmlElement(x)) => Some(node_children_id(x)),
            Some(ElementV::XmlFragment(f)) => Some(node_children_id(f)),
            _ => None,
        }
    }

    /// The payload container of a live annotation, if it is of this kind.
    pub open spec fn payload_of(self, id: ElementId, kind: ElementKind) -> Option<ElementId> {
        if self.ranged.dom().contains(id) && !self.ranged[id].tombstone && self.ranged[id].payload
            == (PayloadV::Composite { kind }) {
            Some(spec_payload_id(id, kind))
        } else {
            None
        }
    }
}

/// The latest of some placements in one sequence.
pub open spec fn latest_in(places: Seq<Placement>, list: ElementId) -> Option<Stamp>
    decreases places.len(),
{
    if places.len() == 0 {
        None
    } else {
        let best = latest_in(places.drop_last(), list);
        let p = places.last();
        if p.list != list {
            best
        } else {
            match best {
                Some(s) if !stamp_lt(s, p.stamp) => best,
                _ => Some(p.stamp),
            }
        }
    }
}

impl DocV {
    /// The stamp an edit gets, or one that nothing can be at where none can be minted.
    pub open spec fn stamp_for(self, target: ElementId, kind: OpKindV) -> Stamp {
        match self.mint(target, kind) {
            Some(s) => s,
            None => spec_unmintable(self.client),
        }
    }

    /// With a map at a key, made unless it is there.
    pub open spec fn with_map(self, map: ElementId, key: Seq<u8>) -> DocV {
        if self.tree.has_map_at(map, key) {
            self
        } else {
            self.emitted(map, OpKindV::MapCreate { key })
        }
    }

    /// Descended at a key: into an element's attributes, else into a map.
    pub open spec fn with_child(self, map: ElementId, key: Seq<u8>) -> DocV {
        if self.tree.attrs_at(map, key) is Some {
            self
        } else {
            self.with_map(map, key)
        }
    }

    /// Where descending at a key leads.
    pub open spec fn child_at(self, map: ElementId, key: Seq<u8>) -> ElementId {
        match self.tree.attrs_at(map, key) {
            Some(id) => id,
            None => derived_id(map, key, ElementKind::LwwMap),
        }
    }

    /// With a node moved under a new parent. One that is in no sequence does not move.
    pub open spec fn with_move(self, node: ElementId, parent: ElementId, index: nat) -> DocV {
        let list = node_children_id(parent);
        let t = self.tree;
        if t.placements.dom().contains(node) && t.lists.dom().contains(list) {
            let anchor = list_place(t.lists[list], index, latest_in(t.placements[node], list));
            self.emitted(list, OpKindV::XmlMove { node, anchor })
        } else {
            self
        }
    }

    /// With an annotation's scalar payload set. One it does not have, or whose payload is
    /// a container, is left alone.
    pub open spec fn with_payload(self, id: ElementId, kind: OpKindV) -> DocV {
        if self.tree.ranged.dom().contains(id) && self.tree.ranged[id].payload is Scalar {
            self.emitted(root_element(), kind)
        } else {
            self
        }
    }

    /// The op that inserts a child at an index of a children sequence.
    pub open spec fn child_op(self, list: ElementId, tag: Option<Seq<u8>>, index: nat) -> OpKindV {
        OpKindV::XmlInsertChild { tag, anchor: list_place(self.tree.lists[list], index, None) }
    }

    /// With a child inserted.
    pub open spec fn with_inserted(
        self,
        list: ElementId,
        tag: Option<Seq<u8>>,
        index: nat,
    ) -> DocV {
        if self.tree.lists.dom().contains(list) {
            self.emitted(list, self.child_op(list, tag, index))
        } else {
            self
        }
    }

    /// The id of a child inserted.
    pub open spec fn inserted_id(
        self,
        list: ElementId,
        tag: Option<Seq<u8>>,
        index: nat,
        kind: ElementKind,
    ) -> ElementId {
        spec_xml_child_id(
            list,
            if self.tree.lists.dom().contains(list) {
                self.stamp_for(list, self.child_op(list, tag, index))
            } else {
                spec_unmintable(self.client)
            },
            kind,
        )
    }

    /// With a scalar inserted at a live index of a list.
    pub open spec fn with_item(self, list: ElementId, index: nat, value: ScalarV) -> DocV {
        if self.tree.lists.dom().contains(list) {
            self.emitted(
                list,
                OpKindV::ListInsert {
                    value,
                    anchor: list_place(self.tree.lists[list], index, None),
                },
            )
        } else {
            self
        }
    }

    /// With codepoints inserted at a live index of a text.
    pub open spec fn with_chars(self, text: ElementId, index: nat, s: Seq<char>) -> DocV {
        if self.tree.texts.dom().contains(text) {
            self.emitted(
                text,
                OpKindV::TextInsert { s, anchor: list_place(self.tree.texts[text], index, None) },
            )
        } else {
            self
        }
    }

    /// With the live item at an index deleted.
    pub open spec fn without_item(self, list: ElementId, index: nat) -> DocV {
        if self.tree.lists.dom().contains(list) && index < list_live(self.tree.lists[list]).len() {
            self.emitted(
                list,
                OpKindV::ListDelete { id: list_live(self.tree.lists[list])[index as int] },
            )
        } else {
            self
        }
    }

    /// The live ids of some codepoints of a text, fewer at its end.
    pub open spec fn char_ids(self, text: ElementId, index: nat, count: nat) -> Seq<Stamp> {
        let live = list_live(self.tree.texts[text]);
        if index >= live.len() {
            Seq::empty()
        } else if count >= live.len() - index {
            live.skip(index as int)
        } else {
            live.subrange(index as int, (index + count) as int)
        }
    }

    /// With some codepoints deleted.
    pub open spec fn without_chars(self, text: ElementId, index: nat, count: nat) -> DocV {
        if self.tree.texts.dom().contains(text) && self.char_ids(text, index, count).len() > 0 {
            self.emitted(text, OpKindV::TextDelete { ids: self.char_ids(text, index, count) })
        } else {
            self
        }
    }

    /// An atomic transaction begun.
    pub open spec fn atomic_begun(self) -> DocV {
        if self.atomic is Some {
            self
        } else {
            DocV {
                atomic: Some(Seq::empty()),
                mint_refused: self.mint_refused && self.in_intention(),
                ..self
            }
        }
    }

    /// The ops an atomic transaction gathered, as one group for each partition.
    pub open spec fn atomic_ops(self) -> Seq<OpV> {
        match self.atomic {
            Some(ops) => grouped_ops(ops),
            None => Seq::empty(),
        }
    }
}

/// Whether a text has any of some ids.
pub open spec fn any_present(t: TreeV, text: ElementId, ids: Seq<Stamp>) -> bool {
    t.texts.dom().contains(text) && exists|i: int|
        0 <= i < ids.len() && t.texts[text].places.dom().contains(#[trigger] ids[i])
}

impl Tree {
    fn read_at(&self, map: ElementId, key: &[u8]) -> (r: Option<Element>)
        requires
            self.wf(),
        ensures
            crate::element::opt_element(r) == self@.live_at(map, key@),
    {
        match self.maps.get(map) {
            Some(m) => m.get(key),
            None => None,
        }
    }

    fn has_map_at(&self, map: ElementId, key: &[u8], child: ElementId) -> (b: bool)
        requires
            self.wf(),
            child == derived_id(map, key@, ElementKind::LwwMap),
        ensures
            b == self@.has_map_at(map, key@),
    {
        self.maps.contains(child) && match self.read_at(map, key) {
            Some(Element::LwwMap(id)) => id == child,
            _ => false,
        }
    }

    fn attrs_at(&self, map: ElementId, key: &[u8]) -> (r: Option<ElementId>)
        requires
            self.wf(),
        ensures
            r == self@.attrs_at(map, key@),
    {
        match self.read_at(map, key) {
            Some(Element::XmlElement(x)) => Some(XmlElement::attrs_id(x)),
            _ => None,
        }
    }

    fn children_at(&self, map: ElementId, key: &[u8]) -> (r: Option<ElementId>)
        requires
            self.wf(),
        ensures
            r == self@.children_at(map, key@),
    {
        match self.read_at(map, key) {
            Some(Element::XmlElement(x)) => Some(XmlElement::children_id(x)),
            Some(Element::XmlFragment(f)) => Some(XmlFragment::children_id(f)),
            _ => None,
        }
    }

    fn payload_of(&self, id: ElementId, kind: ElementKind) -> (r: Option<ElementId>)
        requires
            self.wf(),
        ensures
            r == self@.payload_of(id, kind),
    {
        match self.ranged.get(id) {
            Some(e) => match &e.payload {
                Payload::Composite { kind: k } => if !e.tombstone && *k == kind {
                    Some(payload_id(id, kind))
                } else {
                    None
                },
                Payload::Scalar { .. } => None,
            },
            None => None,
        }
    }
}

fn latest_of(places: &Vec<Placement>, list: ElementId) -> (r: Option<Stamp>)
    ensures
        r == latest_in(places@, list),
{
    let mut best: Option<Stamp> = None;
    let mut i: usize = 0;
    proof {
        assert(places@.take(0) =~= Seq::empty());
    }
    while i < places.len()
        invariant
            i <= places@.len(),
            best == latest_in(places@.take(i as int), list),
        decreases places@.len() - i,
    {
        proof {
            assert(places@.take(i + 1).drop_last() =~= places@.take(i as int));
        }
        let p = places[i];
        if p.list == list {
            best = match best {
                Some(s) => if p.stamp.gt(&s) {
                    Some(p.stamp)
                } else {
                    Some(s)
                },
                None => Some(p.stamp),
            };
        }
        i += 1;
    }
    proof {
        assert(places@.take(i as int) =~= places@);
    }
    best
}

// --- maps ---

/// A cursor over one map.
pub struct MapCursor<'a> {
    pub doc: &'a mut Document,
    pub map_id: ElementId,
}

/// A cursor over one list.
pub struct ListCursor<'a> {
    pub doc: &'a mut Document,
    pub list_id: ElementId,
}

/// A cursor over one text.
pub struct TextCursor<'a> {
    pub doc: &'a mut Document,
    pub text_id: ElementId,
}

/// A cursor over one element.
pub struct XmlCursor<'a> {
    pub doc: &'a mut Document,
    pub xml_id: ElementId,
}

/// A cursor over one fragment: it has no attributes.
pub struct XmlFragmentCursor<'a> {
    pub doc: &'a mut Document,
    pub children_id: ElementId,
}

/// A cursor over the children of an element or a fragment.
pub struct XmlChildrenCursor<'a> {
    pub doc: &'a mut Document,
    pub list_id: ElementId,
}

/// A cursor over the document's annotations.
pub struct RangedCursor<'a> {
    pub doc: &'a mut Document,
}

/// A cursor over the document's grants. It records what it is given and checks no
/// authority.
pub struct AclCursor<'a> {
    pub doc: &'a mut Document,
}

impl<'a> MapCursor<'a> {
    /// Set a scalar at a key.
    pub fn set(&mut self, key: &[u8], value: Scalar)
        requires
            old(self).doc.wf(),
        ensures
            final(self).doc.wf(),
            final(self).map_id == old(self).map_id,
            (*final(self).doc)@ == (*old(self).doc)@.emitted(
                old(self).map_id,
                OpKindV::MapSet { key: key@, value: value@ },
            ),
            *final(final(self).doc) == *final(old(self).doc),
    {
        self.doc.emit(self.map_id, OpKind::MapSet { key: slice_to_vec(key), value });
    }

    /// Set the register at a key, installing it first.
    pub fn register(&mut self, key: &[u8], value: Scalar)
        requires
            old(self).doc.wf(),
        ensures
            final(self).doc.wf(),
            final(self).map_id == old(self).map_id,
            (*final(self).doc)@ == (*old(self).doc)@.emitted(
                old(self).map_id,
                OpKindV::RegisterSet { key: key@, value: value@ },
            ),
            *final(final(self).doc) == *final(old(self).doc),
    {
        self.doc.emit(self.map_id, OpKind::RegisterSet { key: slice_to_vec(key), value });
    }

    /// Count up at a key, installing the counter first.
    pub fn inc(&mut self, key: &[u8], amount: u32)
        requires
            old(self).doc.wf(),
        ensures
            final(self).doc.wf(),
            final(self).map_id == old(self).map_id,
            (*final(self).doc)@ == (*old(self).doc)@.emitted(
                old(self).map_id,
                OpKindV::CounterInc { key: key@, amount },
            ),
            *final(final(self).doc) == *final(old(self).doc),
    {
        self.doc.emit(self.map_id, OpKind::CounterInc { key: slice_to_vec(key), amount });
    }

    /// Count down at a key, installing the counter first.
    pub fn dec(&mut self, key: &[u8], amount: u32)
        requires
            old(self).doc.wf(),
        ensures
            final(self).doc.wf(),
            final(self).map_id == old(self).map_id,
            (*final(self).doc)@ == (*old(self).doc)@.emitted(
                old(self).map_id,
                OpKindV::CounterDec { key: key@, amount },
            ),
            *final(final(self).doc) == *final(old(self).doc),
    {
        self.doc.emit(self.map_id, OpKind::CounterDec { key: slice_to_vec(key), amount });
    }

    /// Delete what is at a key.
    pub fn delete(&mut self, key: &[u8])
        requires
            old(self).doc.wf(),
        ensures
            final(self).doc.wf(),
            final(self).map_id == old(self).map_id,
            (*final(self).doc)@ == (*old(self).doc)@.emitted(
                old(self).map_id,
                OpKindV::MapDelete { key: key@ },
            ),
            *final(final(self).doc) == *final(old(self).doc),
    {
        self.doc.emit(self.map_id, OpKind::MapDelete { key: slice_to_vec(key) });
    }

    /// Descend into the map at a key. Descending into one that is there emits nothing.
    pub fn map(&mut self, key: &[u8]) -> (c: MapCursor<'_>)
        requires
            old(self).doc.wf(),
        ensures
            c.doc.wf(),
            c.map_id == derived_id(old(self).map_id, key@, ElementKind::LwwMap),
            (*c.doc)@ == (*old(self).doc)@.with_map(old(self).map_id, key@),
            final(self).map_id == old(self).map_id,
            *final(self).doc == *final(c.doc),
            *final(final(self).doc) == *final(old(self).doc),
    {
        let child = ElementId::derive(self.map_id, key, ElementKind::LwwMap);
        if !self.doc.tree.has_map_at(self.map_id, key, child) {
            self.doc.emit(self.map_id, OpKind::MapCreate { key: slice_to_vec(key) });
        }
        MapCursor { doc: self.doc, map_id: child }
    }

    /// As [`map`](Self::map), consuming this cursor.
    pub fn into_map(self, key: &[u8]) -> (c: MapCursor<'a>)
        requires
            self.doc.wf(),
        ensures
            c.doc.wf(),
            c.map_id == derived_id(self.map_id, key@, ElementKind::LwwMap),
            (*c.doc)@ == (*old(self.doc))@.with_map(self.map_id, key@),
            *final(c.doc) == *final(self.doc),
    {
        let child = ElementId::derive(self.map_id, key, ElementKind::LwwMap);
        if !self.doc.tree.has_map_at(self.map_id, key, child) {
            self.doc.emit(self.map_id, OpKind::MapCreate { key: slice_to_vec(key) });
        }
        MapCursor { doc: self.doc, map_id: child }
    }

    /// Descend at a key: into the attributes of the element there, else into the map.
    pub fn child(&mut self, key: &[u8]) -> (c: MapCursor<'_>)
        requires
            old(self).doc.wf(),
        ensures
            c.doc.wf(),
            c.map_id == (*old(self).doc)@.child_at(old(self).map_id, key@),
            (*c.doc)@ == (*old(self).doc)@.with_child(old(self).map_id, key@),
            final(self).map_id == old(self).map_id,
            *final(self).doc == *final(c.doc),
            *final(final(self).doc) == *final(old(self).doc),
    {
        match self.doc.tree.attrs_at(self.map_id, key) {
            Some(map_id) => MapCursor { doc: self.doc, map_id },
            None => self.map(key),
        }
    }

    /// As [`child`](Self::child), consuming this cursor.
    pub fn into_child(self, key: &[u8]) -> (c: MapCursor<'a>)
        requires
            self.doc.wf(),
        ensures
            c.doc.wf(),
            c.map_id == (*old(self.doc))@.child_at(self.map_id, key@),
            (*c.doc)@ == (*old(self.doc))@.with_child(self.map_id, key@),
            *final(c.doc) == *final(self.doc),
    {
        match self.doc.tree.attrs_at(self.map_id, key) {
            Some(map_id) => MapCursor { doc: self.doc, map_id },
            None => self.into_map(key),
        }
    }

    /// The children of the element or fragment at a key, if there is one.
    pub fn xml_children(&mut self, key: &[u8]) -> (r: Option<XmlChildrenCursor<'_>>)
        requires
            old(self).doc.wf(),
        ensures
            final(self).map_id == old(self).map_id,
            *final(final(self).doc) == *final(old(self).doc),
            match r {
                Some(c) => (*old(self).doc)@.tree.children_at(old(self).map_id, key@) == Some(c.list_id)
                    && *c.doc == *old(self).doc
                    && *final(self).doc == *final(c.doc),
                None => (*old(self).doc)@.tree.children_at(old(self).map_id, key@) is None
                    && *final(self).doc == *old(self).doc,
            },
    {
        match self.doc.tree.children_at(self.map_id, key) {
            Some(list_id) => Some(XmlChildrenCursor { doc: self.doc, list_id }),
            None => None,
        }
    }

    /// Descend into the list at a key, creating it first.
    pub fn list(&mut self, key: &[u8]) -> (c: ListCursor<'_>)
        requires
            old(self).doc.wf(),
        ensures
            c.doc.wf(),
            c.list_id == derived_id(old(self).map_id, key@, ElementKind::List),
            (*c.doc)@ == (*old(self).doc)@.emitted(
                old(self).map_id,
                OpKindV::ListCreate { key: key@ },
            ),
            final(self).map_id == old(self).map_id,
            *final(self).doc == *final(c.doc),
            *final(final(self).doc) == *final(old(self).doc),
    {
        self.doc.emit(self.map_id, OpKind::ListCreate { key: slice_to_vec(key) });
        let list_id = ElementId::derive(self.map_id, key, ElementKind::List);
        ListCursor { doc: self.doc, list_id }
    }

    /// Descend into the text at a key, creating it first.
    pub fn text(&mut self, key: &[u8]) -> (c: TextCursor<'_>)
        requires
            old(self).doc.wf(),
        ensures
            c.doc.wf(),
            c.text_id == derived_id(old(self).map_id, key@, ElementKind::Text),
            (*c.doc)@ == (*old(self).doc)@.emitted(
                old(self).map_id,
                OpKindV::TextCreate { key: key@ },
            ),
            final(self).map_id == old(self).map_id,
            *final(self).doc == *final(c.doc),
            *final(final(self).doc) == *final(old(self).doc),
    {
        self.doc.emit(self.map_id, OpKind::TextCreate { key: slice_to_vec(key) });
        let text_id = ElementId::derive(self.map_id, key, ElementKind::Text);
        TextCursor { doc: self.doc, text_id }
    }

    /// Descend into the element with this tag at a key, creating it first. Another tag is
    /// another element.
    pub fn xml_element(&mut self, key: &[u8], tag: &[u8]) -> (c: XmlCursor<'_>)
        requires
            old(self).doc.wf(),
        ensures
            c.doc.wf(),
            c.xml_id == element_node_id(old(self).map_id, key@, tag@),
            (*c.doc)@ == (*old(self).doc)@.emitted(
                old(self).map_id,
                OpKindV::XmlElementCreate { key: key@, tag: tag@ },
            ),
            final(self).map_id == old(self).map_id,
            *final(self).doc == *final(c.doc),
            *final(final(self).doc) == *final(old(self).doc),
    {
        self.doc.emit(
            self.map_id,
            OpKind::XmlElementCreate { key: slice_to_vec(key), tag: slice_to_vec(tag) },
        );
        let xml_id = XmlElement::node_id(self.map_id, key, tag);
        XmlCursor { doc: self.doc, xml_id }
    }

    /// Descend into the fragment at a key, creating it first.
    pub fn xml_fragment(&mut self, key: &[u8]) -> (c: XmlFragmentCursor<'_>)
        requires
            old(self).doc.wf(),
        ensures
            c.doc.wf(),
            c.children_id == node_children_id(fragment_node_id(old(self).map_id, key@)),
            (*c.doc)@ == (*old(self).doc)@.emitted(
                old(self).map_id,
                OpKindV::XmlFragmentCreate { key: key@ },
            ),
            final(self).map_id == old(self).map_id,
            *final(self).doc == *final(c.doc),
            *final(final(self).doc) == *final(old(self).doc),
    {
        self.doc.emit(self.map_id, OpKind::XmlFragmentCreate { key: slice_to_vec(key) });
        let children_id = XmlFragment::children_id(XmlFragment::node_id(self.map_id, key));
        XmlFragmentCursor { doc: self.doc, children_id }
    }

    /// Move a node under a new parent, at a live index of its children. The node keeps its
    /// identity and what is below it. A slot it already has there does not count for the
    /// index. One that is in no children sequence does not move.
    pub fn move_xml(&mut self, node: ElementId, new_parent: ElementId, index: usize)
        requires
            old(self).doc.wf(),
        ensures
            final(self).doc.wf(),
            final(self).map_id == old(self).map_id,
            (*final(self).doc)@ == (*old(self).doc)@.with_move(node, new_parent, index as nat),
            *final(final(self).doc) == *final(old(self).doc),
    {
        let dest = XmlElement::children_id(new_parent);
        let own = match self.doc.tree.placements.get(node) {
            Some(places) => latest_of(&places.at, dest),
            None => {
                return;
            },
        };
        let anchor = match self.doc.tree.lists.get(dest) {
            Some(list) => list.place_excluding(index, own),
            None => {
                return;
            },
        };
        self.doc.emit(dest, OpKind::XmlMove { node, anchor });
    }

    /// The document's annotations.
    pub fn ranged(&mut self) -> (c: RangedCursor<'_>)
        requires
            old(self).doc.wf(),
        ensures
            c.doc.wf(),
            (*c.doc)@ == (*old(self).doc)@,
            final(self).map_id == old(self).map_id,
            *final(self).doc == *final(c.doc),
            *final(final(self).doc) == *final(old(self).doc),
    {
        RangedCursor { doc: self.doc }
    }

    /// The document's grants.
    pub fn acl(&mut self) -> (c: AclCursor<'_>)
        requires
            old(self).doc.wf(),
        ensures
            c.doc.wf(),
            (*c.doc)@ == (*old(self).doc)@,
            final(self).map_id == old(self).map_id,
            *final(self).doc == *final(c.doc),
            *final(final(self).doc) == *final(old(self).doc),
    {
        AclCursor { doc: self.doc }
    }
}

// --- annotations and grants ---

impl<'a> RangedCursor<'a> {
    /// Annotate a span with a scalar. Gives the annotation's id, which names nothing where no
    /// op could be minted.
    pub fn create(&mut self, start: RangeAnchor, end: RangeAnchor, payload: Scalar) -> (id: ElementId)
        requires
            old(self).doc.wf(),
        ensures
            final(self).doc.wf(),
            (*final(self).doc)@ == (*old(self).doc)@.emitted(
                root_element(),
                OpKindV::RangedCreate {
                    start,
                    end,
                    payload: RangedInitV::Scalar(payload@),
                    name: None,
                },
            ),
            id == spec_ranged_id(
                (*old(self).doc)@.stamp_for(
                    root_element(),
                    OpKindV::RangedCreate {
                        start,
                        end,
                        payload: RangedInitV::Scalar(payload@),
                        name: None,
                    },
                ),
            ),
            *final(final(self).doc) == *final(old(self).doc),
    {
        self.create_with(start, end, RangedInit::Scalar(payload), None)
    }

    /// Mark a span: an annotation with a name.
    pub fn mark(
        &mut self,
        name: &[u8],
        start: RangeAnchor,
        end: RangeAnchor,
        value: Scalar,
    ) -> (id: ElementId)
        requires
            old(self).doc.wf(),
        ensures
            final(self).doc.wf(),
            (*final(self).doc)@ == (*old(self).doc)@.emitted(
                root_element(),
                OpKindV::RangedCreate {
                    start,
                    end,
                    payload: RangedInitV::Scalar(value@),
                    name: Some(name@),
                },
            ),
            id == spec_ranged_id(
                (*old(self).doc)@.stamp_for(
                    root_element(),
                    OpKindV::RangedCreate {
                        start,
                        end,
                        payload: RangedInitV::Scalar(value@),
                        name: Some(name@),
                    },
                ),
            ),
            *final(final(self).doc) == *final(old(self).doc),
    {
        self.create_with(start, end, RangedInit::Scalar(value), Some(slice_to_vec(name)))
    }

    /// Annotate a span with a map.
    pub fn create_map(&mut self, start: RangeAnchor, end: RangeAnchor) -> (id: ElementId)
        requires
            old(self).doc.wf(),
        ensures
            final(self).doc.wf(),
            (*final(self).doc)@ == (*old(self).doc)@.emitted(
                root_element(),
                OpKindV::RangedCreate {
                    start,
                    end,
                    payload: RangedInitV::Composite(ElementKind::LwwMap),
                    name: None,
                },
            ),
            id == spec_ranged_id(
                (*old(self).doc)@.stamp_for(
                    root_element(),
                    OpKindV::RangedCreate {
                        start,
                        end,
                        payload: RangedInitV::Composite(ElementKind::LwwMap),
                        name: None,
                    },
                ),
            ),
            *final(final(self).doc) == *final(old(self).doc),
    {
        self.create_with(start, end, RangedInit::Composite(ElementKind::LwwMap), None)
    }

    /// Annotate a span with a list.
    pub fn create_list(&mut self, start: RangeAnchor, end: RangeAnchor) -> (id: ElementId)
        requires
            old(self).doc.wf(),
        ensures
            final(self).doc.wf(),
            (*final(self).doc)@ == (*old(self).doc)@.emitted(
                root_element(),
                OpKindV::RangedCreate {
                    start,
                    end,
                    payload: RangedInitV::Composite(ElementKind::List),
                    name: None,
                },
            ),
            id == spec_ranged_id(
                (*old(self).doc)@.stamp_for(
                    root_element(),
                    OpKindV::RangedCreate {
                        start,
                        end,
                        payload: RangedInitV::Composite(ElementKind::List),
                        name: None,
                    },
                ),
            ),
            *final(final(self).doc) == *final(old(self).doc),
    {
        self.create_with(start, end, RangedInit::Composite(ElementKind::List), None)
    }

    /// Annotate a span with a text.
    pub fn create_text(&mut self, start: RangeAnchor, end: RangeAnchor) -> (id: ElementId)
        requires
            old(self).doc.wf(),
        ensures
            final(self).doc.wf(),
            (*final(self).doc)@ == (*old(self).doc)@.emitted(
                root_element(),
                OpKindV::RangedCreate {
                    start,
                    end,
                    payload: RangedInitV::Composite(ElementKind::Text),
                    name: None,
                },
            ),
            id == spec_ranged_id(
                (*old(self).doc)@.stamp_for(
                    root_element(),
                    OpKindV::RangedCreate {
                        start,
                        end,
                        payload: RangedInitV::Composite(ElementKind::Text),
                        name: None,
                    },
                ),
            ),
            *final(final(self).doc) == *final(old(self).doc),
    {
        self.create_with(start, end, RangedInit::Composite(ElementKind::Text), None)
    }

    /// An annotation over a span.
    fn create_with(
        &mut self,
        start: RangeAnchor,
        end: RangeAnchor,
        payload: RangedInit,
        name: Option<Vec<u8>>,
    ) -> (id: ElementId)
        requires
            old(self).doc.wf(),
        ensures
            final(self).doc.wf(),
            (*final(self).doc)@ == (*old(self).doc)@.emitted(
                root_element(),
                OpKindV::RangedCreate {
                    start,
                    end,
                    payload: payload@,
                    name: crate::bytes::opt_bytes(name),
                },
            ),
            id == spec_ranged_id(
                (*old(self).doc)@.stamp_for(
                    root_element(),
                    OpKindV::RangedCreate {
                        start,
                        end,
                        payload: payload@,
                        name: crate::bytes::opt_bytes(name),
                    },
                ),
            ),
            *final(final(self).doc) == *final(old(self).doc),
    {
        let absent = unmintable_stamp(self.doc.client);
        let stamp = match self.doc.emit_stamped(
            root_id(),
            OpKind::RangedCreate { start, end, payload, name },
        ) {
            Some(s) => s,
            None => absent,
        };
        ranged_id(stamp)
    }

    /// The map that a live annotation's payload is, if it is one.
    pub fn payload_map(&mut self, id: ElementId) -> (r: Option<MapCursor<'_>>)
        requires
            old(self).doc.wf(),
        ensures
            *final(final(self).doc) == *final(old(self).doc),
            match r {
                Some(c) => (*old(self).doc)@.tree.payload_of(id, ElementKind::LwwMap) == Some(c.map_id)
                    && *c.doc == *old(self).doc
                    && *final(self).doc == *final(c.doc),
                None => (*old(self).doc)@.tree.payload_of(id, ElementKind::LwwMap) is None
                    && *final(self).doc == *old(self).doc,
            },
    {
        match self.doc.tree.payload_of(id, ElementKind::LwwMap) {
            Some(map_id) => Some(MapCursor { doc: self.doc, map_id }),
            None => None,
        }
    }

    /// The list that a live annotation's payload is, if it is one.
    pub fn payload_list(&mut self, id: ElementId) -> (r: Option<ListCursor<'_>>)
        requires
            old(self).doc.wf(),
        ensures
            *final(final(self).doc) == *final(old(self).doc),
            match r {
                Some(c) => (*old(self).doc)@.tree.payload_of(id, ElementKind::List) == Some(c.list_id)
                    && *c.doc == *old(self).doc
                    && *final(self).doc == *final(c.doc),
                None => (*old(self).doc)@.tree.payload_of(id, ElementKind::List) is None
                    && *final(self).doc == *old(self).doc,
            },
    {
        match self.doc.tree.payload_of(id, ElementKind::List) {
            Some(list_id) => Some(ListCursor { doc: self.doc, list_id }),
            None => None,
        }
    }

    /// The text that a live annotation's payload is, if it is one.
    pub fn payload_text(&mut self, id: ElementId) -> (r: Option<TextCursor<'_>>)
        requires
            old(self).doc.wf(),
        ensures
            *final(final(self).doc) == *final(old(self).doc),
            match r {
                Some(c) => (*old(self).doc)@.tree.payload_of(id, ElementKind::Text) == Some(c.text_id)
                    && *c.doc == *old(self).doc
                    && *final(self).doc == *final(c.doc),
                None => (*old(self).doc)@.tree.payload_of(id, ElementKind::Text) is None
                    && *final(self).doc == *old(self).doc,
            },
    {
        match self.doc.tree.payload_of(id, ElementKind::Text) {
            Some(text_id) => Some(TextCursor { doc: self.doc, text_id }),
            None => None,
        }
    }

    /// Set the scalar payload of an annotation. One not held here, or whose payload is a
    /// container, is left alone.
    pub fn set_payload(&mut self, id: ElementId, payload: Scalar)
        requires
            old(self).doc.wf(),
        ensures
            final(self).doc.wf(),
            (*final(self).doc)@ == (*old(self).doc)@.with_payload(
                id,
                OpKindV::RangedSetPayload { id, payload: payload@ },
            ),
            *final(final(self).doc) == *final(old(self).doc),
    {
        let scalar = match self.doc.tree.ranged.get(id) {
            Some(e) => match &e.payload {
                Payload::Scalar { .. } => true,
                Payload::Composite { .. } => false,
            },
            None => false,
        };
        if scalar {
            self.doc.emit(root_id(), OpKind::RangedSetPayload { id, payload });
        }
    }

    /// Delete an annotation. One not held here is left alone.
    pub fn delete(&mut self, id: ElementId)
        requires
            old(self).doc.wf(),
        ensures
            final(self).doc.wf(),
            (*final(self).doc)@ == if (*old(self).doc)@.tree.ranged.dom().contains(id) {
                (*old(self).doc)@.emitted(root_element(), OpKindV::RangedDelete { id })
            } else {
                (*old(self).doc)@
            },
            *final(final(self).doc) == *final(old(self).doc),
    {
        if self.doc.tree.ranged.contains(id) {
            self.doc.emit(root_id(), OpKind::RangedDelete { id });
        }
    }
}

impl<'a> AclCursor<'a> {
    /// Grant or deny something to a subject on a path. Gives the grant's id, which names
    /// nothing where no op could be minted.
    pub fn grant(
        &mut self,
        subject: AclSubject,
        grant: AclGrant,
        effect: AclEffect,
        path: Vec<u8>,
        grantor: ClientId,
    ) -> (id: ElementId)
        requires
            old(self).doc.wf(),
        ensures
            final(self).doc.wf(),
            (*final(self).doc)@ == (*old(self).doc)@.emitted(
                root_element(),
                OpKindV::AclGrant {
                    subject: subject@,
                    grant: grant@,
                    effect,
                    path: path@,
                    grantor,
                },
            ),
            id == spec_acl_id(
                (*old(self).doc)@.stamp_for(
                    root_element(),
                    OpKindV::AclGrant {
                        subject: subject@,
                        grant: grant@,
                        effect,
                        path: path@,
                        grantor,
                    },
                ),
            ),
            *final(final(self).doc) == *final(old(self).doc),
    {
        let absent = unmintable_stamp(self.doc.client);
        let stamp = match self.doc.emit_stamped(
            root_id(),
            OpKind::AclGrant { subject, grant, effect, path, grantor },
        ) {
            Some(s) => s,
            None => absent,
        };
        acl_id(stamp)
    }

    /// Revoke a grant. One not held here is left alone.
    pub fn revoke(&mut self, id: ElementId)
        requires
            old(self).doc.wf(),
        ensures
            final(self).doc.wf(),
            (*final(self).doc)@ == if (*old(self).doc)@.tree.acl.dom().contains(id) {
                (*old(self).doc)@.emitted(root_element(), OpKindV::AclRevoke { id })
            } else {
                (*old(self).doc)@
            },
            *final(final(self).doc) == *final(old(self).doc),
    {
        if self.doc.tree.acl.contains(id) {
            self.doc.emit(root_id(), OpKind::AclRevoke { id });
        }
    }
}

// --- XML ---

impl<'a> XmlCursor<'a> {
    /// The element's id, to move or address it later.
    pub fn id(&self) -> (id: ElementId)
        ensures
            id == self.xml_id,
    {
        self.xml_id
    }

    /// The element's attributes.
    pub fn attrs(&mut self) -> (c: MapCursor<'_>)
        requires
            old(self).doc.wf(),
        ensures
            c.doc.wf(),
            c.map_id == node_attrs_id(old(self).xml_id),
            (*c.doc)@ == (*old(self).doc)@,
            final(self).xml_id == old(self).xml_id,
            *final(self).doc == *final(c.doc),
            *final(final(self).doc) == *final(old(self).doc),
    {
        let map_id = XmlElement::attrs_id(self.xml_id);
        MapCursor { doc: self.doc, map_id }
    }

    /// The element's children.
    pub fn children(&mut self) -> (c: XmlChildrenCursor<'_>)
        requires
            old(self).doc.wf(),
        ensures
            c.doc.wf(),
            c.list_id == node_children_id(old(self).xml_id),
            (*c.doc)@ == (*old(self).doc)@,
            final(self).xml_id == old(self).xml_id,
            *final(self).doc == *final(c.doc),
            *final(final(self).doc) == *final(old(self).doc),
    {
        let list_id = XmlElement::children_id(self.xml_id);
        XmlChildrenCursor { doc: self.doc, list_id }
    }
}

impl<'a> XmlFragmentCursor<'a> {
    /// The fragment's children.
    pub fn children(&mut self) -> (c: XmlChildrenCursor<'_>)
        requires
            old(self).doc.wf(),
        ensures
            c.doc.wf(),
            c.list_id == old(self).children_id,
            (*c.doc)@ == (*old(self).doc)@,
            final(self).children_id == old(self).children_id,
            *final(self).doc == *final(c.doc),
            *final(final(self).doc) == *final(old(self).doc),
    {
        XmlChildrenCursor { doc: self.doc, list_id: self.children_id }
    }
}

impl<'a> XmlChildrenCursor<'a> {
    /// Insert a child at a live index. Gives its id, which names nothing where no op could be
    /// minted or there is no such sequence.
    fn insert_child(&mut self, index: usize, tag: Option<Vec<u8>>, kind: ElementKind) -> (id:
        ElementId)
        requires
            old(self).doc.wf(),
        ensures
            final(self).doc.wf(),
            final(self).list_id == old(self).list_id,
            (*final(self).doc)@ == (*old(self).doc)@.with_inserted(
                old(self).list_id,
                crate::bytes::opt_bytes(tag),
                index as nat,
            ),
            id == (*old(self).doc)@.inserted_id(
                old(self).list_id,
                crate::bytes::opt_bytes(tag),
                index as nat,
                kind,
            ),
            *final(final(self).doc) == *final(old(self).doc),
    {
        let absent = unmintable_stamp(self.doc.client);
        let anchor = match self.doc.tree.lists.get(self.list_id) {
            Some(list) => list.place(index),
            None => {
                return xml_child_id(self.list_id, absent, kind);
            },
        };
        let stamp = match self.doc.emit_stamped(
            self.list_id,
            OpKind::XmlInsertChild { tag, anchor },
        ) {
            Some(s) => s,
            None => absent,
        };
        xml_child_id(self.list_id, stamp, kind)
    }

    /// Insert an element with a tag.
    pub fn insert_element(&mut self, index: usize, tag: &[u8]) -> (c: XmlCursor<'_>)
        requires
            old(self).doc.wf(),
        ensures
            c.doc.wf(),
            c.xml_id == (*old(self).doc)@.inserted_id(
                old(self).list_id,
                Some(tag@),
                index as nat,
                ElementKind::XmlElement,
            ),
            (*c.doc)@ == (*old(self).doc)@.with_inserted(old(self).list_id, Some(tag@), index as nat),
            final(self).list_id == old(self).list_id,
            *final(self).doc == *final(c.doc),
            *final(final(self).doc) == *final(old(self).doc),
    {
        let xml_id = self.insert_child(index, Some(slice_to_vec(tag)), ElementKind::XmlElement);
        XmlCursor { doc: self.doc, xml_id }
    }

    /// Insert a run of text.
    pub fn insert_text(&mut self, index: usize) -> (c: TextCursor<'_>)
        requires
            old(self).doc.wf(),
        ensures
            c.doc.wf(),
            c.text_id == (*old(self).doc)@.inserted_id(
                old(self).list_id,
                None,
                index as nat,
                ElementKind::Text,
            ),
            (*c.doc)@ == (*old(self).doc)@.with_inserted(old(self).list_id, None, index as nat),
            final(self).list_id == old(self).list_id,
            *final(self).doc == *final(c.doc),
            *final(final(self).doc) == *final(old(self).doc),
    {
        let text_id = self.insert_child(index, None, ElementKind::Text);
        TextCursor { doc: self.doc, text_id }
    }

    /// Delete the live child at an index.
    pub fn delete(&mut self, index: usize)
        requires
            old(self).doc.wf(),
        ensures
            final(self).doc.wf(),
            final(self).list_id == old(self).list_id,
            (*final(self).doc)@ == (*old(self).doc)@.without_item(old(self).list_id, index as nat),
            *final(final(self).doc) == *final(old(self).doc),
    {
        let id = match self.doc.tree.lists.get(self.list_id) {
            Some(list) => list.node_at(index),
            None => None,
        };
        if let Some(id) = id {
            self.doc.emit(self.list_id, OpKind::ListDelete { id });
        }
    }

    /// How many live children there are.
    pub fn len(&self) -> (n: usize)
        requires
            self.doc.wf(),
        ensures
            n == if (*old(self.doc))@.tree.lists.dom().contains(self.list_id) {
                live_set((*old(self.doc))@.tree.lists[self.list_id]).len()
            } else {
                0
            },
    {
        match self.doc.tree.lists.get(self.list_id) {
            Some(l) => l.len(),
            None => 0,
        }
    }

    /// Whether there is no live child.
    pub fn is_empty(&self) -> (b: bool)
        requires
            self.doc.wf(),
        ensures
            b == ((*old(self.doc))@.tree.lists.dom().contains(self.list_id) ==> live_set(
                (*old(self.doc))@.tree.lists[self.list_id],
            ).len() == 0),
    {
        self.len() == 0
    }
}

// --- lists and texts ---

impl<'a> ListCursor<'a> {
    /// Insert a scalar at a live index.
    pub fn insert(&mut self, index: usize, value: Scalar)
        requires
            old(self).doc.wf(),
        ensures
            final(self).doc.wf(),
            final(self).list_id == old(self).list_id,
            (*final(self).doc)@ == (*old(self).doc)@.with_item(
                old(self).list_id,
                index as nat,
                value@,
            ),
            *final(final(self).doc) == *final(old(self).doc),
    {
        let anchor = match self.doc.tree.lists.get(self.list_id) {
            Some(list) => list.place(index),
            None => {
                return;
            },
        };
        self.doc.emit(self.list_id, OpKind::ListInsert { value, anchor });
    }

    /// Delete the live item at an index.
    pub fn delete(&mut self, index: usize)
        requires
            old(self).doc.wf(),
        ensures
            final(self).doc.wf(),
            final(self).list_id == old(self).list_id,
            (*final(self).doc)@ == (*old(self).doc)@.without_item(old(self).list_id, index as nat),
            *final(final(self).doc) == *final(old(self).doc),
    {
        let id = match self.doc.tree.lists.get(self.list_id) {
            Some(list) => list.node_at(index),
            None => None,
        };
        if let Some(id) = id {
            self.doc.emit(self.list_id, OpKind::ListDelete { id });
        }
    }

    /// Delete the item with an id.
    pub fn delete_id(&mut self, id: Stamp)
        requires
            old(self).doc.wf(),
        ensures
            final(self).doc.wf(),
            final(self).list_id == old(self).list_id,
            (*final(self).doc)@ == if (*old(self).doc)@.tree.lists.dom().contains(old(self).list_id)
                && (*old(self).doc)@.tree.lists[old(self).list_id].places.dom().contains(id) {
                (*old(self).doc)@.emitted(old(self).list_id, OpKindV::ListDelete { id })
            } else {
                (*old(self).doc)@
            },
            *final(final(self).doc) == *final(old(self).doc),
    {
        let present = match self.doc.tree.lists.get(self.list_id) {
            Some(list) => list.contains(id),
            None => false,
        };
        if present {
            self.doc.emit(self.list_id, OpKind::ListDelete { id });
        }
    }
}

impl<'a> TextCursor<'a> {
    /// Insert text at a codepoint index.
    pub fn insert(&mut self, index: usize, s: &str)
        requires
            old(self).doc.wf(),
        ensures
            final(self).doc.wf(),
            final(self).text_id == old(self).text_id,
            (*final(self).doc)@ == (*old(self).doc)@.with_chars(
                old(self).text_id,
                index as nat,
                s@,
            ),
            *final(final(self).doc) == *final(old(self).doc),
    {
        let anchor = match self.doc.tree.texts.get(self.text_id) {
            Some(text) => text.place(index),
            None => {
                return;
            },
        };
        let mut t = String::new();
        t.push_str(s);
        proof {
            assert(t@ =~= s@);
        }
        self.doc.emit(self.text_id, OpKind::TextInsert { s: t, anchor });
    }

    /// Delete some live codepoints from an index on.
    pub fn delete(&mut self, index: usize, count: usize)
        requires
            old(self).doc.wf(),
        ensures
            final(self).doc.wf(),
            final(self).text_id == old(self).text_id,
            (*final(self).doc)@ == (*old(self).doc)@.without_chars(
                old(self).text_id,
                index as nat,
                count as nat,
            ),
            *final(final(self).doc) == *final(old(self).doc),
    {
        let ids = match self.doc.tree.texts.get(self.text_id) {
            Some(text) => text.node_ids(index, count),
            None => {
                return;
            },
        };
        if ids.len() > 0 {
            self.doc.emit(self.text_id, OpKind::TextDelete { ids });
        }
    }

    /// Delete the codepoints with these ids, if the text has any of them.
    pub fn delete_ids(&mut self, ids: &[Stamp])
        requires
            old(self).doc.wf(),
        ensures
            final(self).doc.wf(),
            final(self).text_id == old(self).text_id,
            (*final(self).doc)@ == if any_present((*old(self).doc)@.tree, old(self).text_id, ids@) {
                (*old(self).doc)@.emitted(old(self).text_id, OpKindV::TextDelete { ids: ids@ })
            } else {
                (*old(self).doc)@
            },
            *final(final(self).doc) == *final(old(self).doc),
    {
        let present = match self.doc.tree.texts.get(self.text_id) {
            Some(text) => holds_some(text, ids),
            None => false,
        };
        if present {
            let mut all: Vec<Stamp> = Vec::new();
            all.extend_from_slice(ids);
            proof {
                assert(all@ =~= ids@);
            }
            self.doc.emit(self.text_id, OpKind::TextDelete { ids: all });
        }
    }
}

fn holds_some(text: &Text, ids: &[Stamp]) -> (b: bool)
    requires
        text.wf(),
    ensures
        b == exists|i: int| 0 <= i < ids@.len() && text@.places.dom().contains(#[trigger] ids@[i]),
{
    let mut i: usize = 0;
    while i < ids.len()
        invariant
            text.wf(),
            i <= ids@.len(),
            forall|j: int| 0 <= j < i ==> !text@.places.dom().contains(#[trigger] ids@[j]),
        decreases ids@.len() - i,
    {
        if text.contains(ids[i]) {
            return true;
        }
        i += 1;
    }
    false
}

// --- transactions ---

impl Document {
    /// A cursor over the root map.
    fn root_cursor(&mut self) -> (c: MapCursor<'_>)
        ensures
            c.map_id == root_element(),
            *c.doc == *old(self),
            *final(c.doc) == *final(self),
    {
        MapCursor { doc: self, map_id: root_id() }
    }

    /// Run an edit as one transaction and return its ops: none while an atomic transaction
    /// is open, which gathers them. What the edit may rely on is a cursor over the root of
    /// this replica with a transaction begun.
    pub fn transact<F: FnOnce(&mut MapCursor)>(&mut self, f: F) -> (ops: Vec<Op>)
        requires
            old(self).wf(),
            forall|c: &mut MapCursor|
                #![trigger call_requires(f, (c,))]
                c.doc.wf() && c.map_id == root_element() ==> call_requires(f, (c,)),
            forall|c: &mut MapCursor|
                #![trigger call_ensures(f, (c,), ())]
                call_ensures(f, (c,), ()) ==> final(c).doc.wf() && *final(final(c).doc)
                    == *final(c.doc),
        ensures
            final(self).wf(),
            exists|c: &mut MapCursor|
                #![trigger call_ensures(f, (c,), ())]
                call_ensures(f, (c,), ()) && c.map_id == root_element() && (*c.doc)@
                    == old(self)@.begun() && final(self)@ == (*final(c).doc)@.ended() && ops_view(ops@)
                    == (*final(c).doc)@.edit_ops(),
    {
        self.begin_transact();
        let mut c = self.root_cursor();
        f(&mut c);
        self.end_transact()
    }

    /// Run an edit as one atomic transaction: its ops are one group for each partition, and
    /// a peer folds a group in all or not at all.
    pub fn atomic_transact<F: FnOnce(&mut MapCursor)>(&mut self, f: F) -> (ops: Vec<Op>)
        requires
            old(self).wf(),
            forall|c: &mut MapCursor|
                #![trigger call_requires(f, (c,))]
                c.doc.wf() && c.map_id == root_element() ==> call_requires(f, (c,)),
            forall|c: &mut MapCursor|
                #![trigger call_ensures(f, (c,), ())]
                call_ensures(f, (c,), ()) ==> final(c).doc.wf() && *final(final(c).doc)
                    == *final(c.doc),
        ensures
            final(self).wf(),
            exists|c: &mut MapCursor|
                #![trigger call_ensures(f, (c,), ())]
                call_ensures(f, (c,), ()) && c.map_id == root_element() && (*c.doc)@
                    == old(self)@.atomic_begun().begun() && final(self)@
                    == (*final(c).doc)@.ended().committed_atomic() && ops_view(ops@)
                    == (*final(c).doc)@.ended().atomic_ops(),
    {
        self.begin_atomic();
        let _ = self.transact(f);
        self.commit_atomic()
    }
}

} // verus!
