//! XML tree nodes: a tagged element, which owns an attrs map and a children sequence, and
//! a fragment, which owns only children. A node's parts live in the document's registries
//! under ids derived from the node's own.

use crate::elementid::{derived_id, ElementId, ElementKind};
use vstd::prelude::*;

verus! {

/// The bytes `attrs`.
pub open spec fn attrs_key() -> Seq<u8> {
    seq![97u8, 116u8, 116u8, 114u8, 115u8]
}

/// The bytes `children`.
pub open spec fn children_key() -> Seq<u8> {
    seq![99u8, 104u8, 105u8, 108u8, 100u8, 114u8, 101u8, 110u8]
}

/// An element: its tag, and whether it has lost its slot.
#[derive(PartialEq, Eq, Debug)]
pub struct XmlElement {
    pub tag: Vec<u8>,
    pub displaced: bool,
}

/// An element, by value.
pub struct XmlElementV {
    pub tag: Seq<u8>,
    pub displaced: bool,
}

impl View for XmlElement {
    type V = XmlElementV;

    open spec fn view(&self) -> XmlElementV {
        XmlElementV { tag: self.tag@, displaced: self.displaced }
    }
}

/// A fragment: whether it has lost its slot.
#[derive(Clone, Copy, PartialEq, Eq, Debug, Structural)]
pub struct XmlFragment {
    pub displaced: bool,
}

impl View for XmlFragment {
    type V = XmlFragment;

    open spec fn view(&self) -> XmlFragment {
        *self
    }
}

/// The id of the element tagged `tag` at `key` in a map: the tag is part of the identity,
/// so a different tag at the same key is a different element.
pub open spec fn element_node_id(map: ElementId, key: Seq<u8>, tag: Seq<u8>) -> ElementId {
    derived_id(derived_id(map, key, ElementKind::XmlElement), tag, ElementKind::XmlElement)
}

/// The id of the fragment at `key` in a map.
pub open spec fn fragment_node_id(map: ElementId, key: Seq<u8>) -> ElementId {
    derived_id(map, key, ElementKind::XmlFragment)
}

/// The id of a node's attrs map.
pub open spec fn node_attrs_id(node: ElementId) -> ElementId {
    derived_id(node, attrs_key(), ElementKind::LwwMap)
}

/// The id of a node's children sequence.
pub open spec fn node_children_id(node: ElementId) -> ElementId {
    derived_id(node, children_key(), ElementKind::List)
}

impl XmlElement {
    pub fn node_id(map: ElementId, key: &[u8], tag: &[u8]) -> (id: ElementId)
        ensures
            id == element_node_id(map, key@, tag@),
    {
        ElementId::derive(
            ElementId::derive(map, key, ElementKind::XmlElement),
            tag,
            ElementKind::XmlElement,
        )
    }

    pub fn attrs_id(node: ElementId) -> (id: ElementId)
        ensures
            id == node_attrs_id(node),
    {
        let key: [u8; 5] = [97, 116, 116, 114, 115];
        proof {
            assert(key@ =~= attrs_key());
        }
        ElementId::derive(node, &key, ElementKind::LwwMap)
    }

    pub fn children_id(node: ElementId) -> (id: ElementId)
        ensures
            id == node_children_id(node),
    {
        let key: [u8; 8] = [99, 104, 105, 108, 100, 114, 101, 110];
        proof {
            assert(key@ =~= children_key());
        }
        ElementId::derive(node, &key, ElementKind::List)
    }
}

impl XmlFragment {
    pub fn node_id(map: ElementId, key: &[u8]) -> (id: ElementId)
        ensures
            id == fragment_node_id(map, key@),
    {
        ElementId::derive(map, key, ElementKind::XmlFragment)
    }

    pub fn children_id(node: ElementId) -> (id: ElementId)
        ensures
            id == node_children_id(node),
    {
        XmlElement::children_id(node)
    }
}

} // verus!
