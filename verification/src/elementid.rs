//! ElementId: UUIDv5, derived convergently from (parent, key, kind) so two replicas
//! independently creating the same element at the same slot agree on its id.

use crate::ids::{new_v5, uuid_v5};
use crate::wire::{be_array, be_bits, be_bytes, be_value, lemma_be_value_of_bytes, lemma_pow256};
use vstd::prelude::*;
use vstd::slice::slice_to_vec;

verus! {

/// An element's identity: sixteen bytes, held as the number they spell most
/// significant byte first, so the order of the numbers is the order of the bytes.
#[derive(Clone, Copy, PartialEq, Eq, Hash, Debug, Structural)]
pub struct ElementId {
    pub bits: u128,
}

/// The value kinds a Map slot can hold. The tag feeds id derivation, so a Counter
/// and a Register at one key get distinct ids.
#[derive(Clone, Copy, PartialEq, Eq, Debug, Structural)]
pub enum ElementKind {
    Scalar,
    Register,
    Counter,
    LwwMap,
    List,
    Text,
    XmlElement,
    XmlFragment,
}

/// The id whose sixteen bytes are `bytes`.
pub open spec fn element_id_of(bytes: Seq<u8>) -> ElementId {
    ElementId { bits: be_value(bytes) as u128 }
}

/// The id of the `kind` child of `parent` at `key`: the UUIDv5 under the parent's
/// bytes of the key followed by the kind's tag byte.
pub open spec fn derived_id(parent: ElementId, key: Seq<u8>, kind: ElementKind) -> ElementId {
    element_id_of(uuid_v5(parent.bytes(), key.push(kind.spec_tag())))
}

impl ElementId {
    /// The sixteen bytes of the id.
    pub open spec fn bytes(self) -> Seq<u8> {
        be_bytes(self.bits as nat, 16)
    }

    /// An id is the one its bytes name.
    pub proof fn law_bytes_name_one_id(self)
        ensures
            element_id_of(self.bytes()) == self,
    {
        lemma_pow256(16);
        lemma_be_value_of_bytes(self.bits as nat, 16);
    }

    /// The id whose bytes are `bytes`, taken as they are.
    pub fn from_bytes(bytes: [u8; 16]) -> (id: Self)
        ensures
            id.bytes() == bytes@,
            id == element_id_of(bytes@),
    {
        ElementId { bits: be_bits(&bytes) }
    }

    /// Derive a child id from the parent id as namespace and `key` followed by the
    /// kind's tag as name, so every replica derives the same id for the same slot.
    pub fn derive(parent: ElementId, key: &[u8], kind: ElementKind) -> (id: Self)
        ensures
            id == derived_id(parent, key@, kind),
    {
        let mut name: Vec<u8> = slice_to_vec(key);
        name.push(kind.tag());
        Self::from_bytes(new_v5(parent.as_bytes(), name.as_slice()))
    }

    /// The id's sixteen bytes.
    pub fn as_bytes(&self) -> (bytes: [u8; 16])
        ensures
            bytes@ == self.bytes(),
    {
        be_array(self.bits)
    }
}

impl ElementKind {
    /// The kind's tag byte: its place in the declaration.
    pub open spec fn spec_tag(self) -> u8 {
        match self {
            ElementKind::Scalar => 0,
            ElementKind::Register => 1,
            ElementKind::Counter => 2,
            ElementKind::LwwMap => 3,
            ElementKind::List => 4,
            ElementKind::Text => 5,
            ElementKind::XmlElement => 6,
            ElementKind::XmlFragment => 7,
        }
    }

    /// The kind whose tag is `tag`, if any.
    pub open spec fn spec_from_tag(tag: u8) -> Option<Self> {
        match tag {
            0 => Some(ElementKind::Scalar),
            1 => Some(ElementKind::Register),
            2 => Some(ElementKind::Counter),
            3 => Some(ElementKind::LwwMap),
            4 => Some(ElementKind::List),
            5 => Some(ElementKind::Text),
            6 => Some(ElementKind::XmlElement),
            7 => Some(ElementKind::XmlFragment),
            _ => None,
        }
    }

    /// The container kinds: those addressed by element id rather than held inline.
    pub open spec fn spec_is_container(self) -> bool {
        match self {
            ElementKind::LwwMap | ElementKind::List | ElementKind::Text | ElementKind::XmlElement
            | ElementKind::XmlFragment => true,
            ElementKind::Scalar | ElementKind::Register | ElementKind::Counter => false,
        }
    }

    /// The containers whose id the parent and key alone determine.
    pub open spec fn spec_is_key_derived_container(self) -> bool {
        match self {
            ElementKind::LwwMap | ElementKind::List | ElementKind::Text | ElementKind::XmlFragment => {
                true
            },
            ElementKind::Scalar | ElementKind::Register | ElementKind::Counter
            | ElementKind::XmlElement => false,
        }
    }

    /// The kind's tag byte.
    pub fn tag(self) -> (tag: u8)
        ensures
            tag == self.spec_tag(),
    {
        match self {
            ElementKind::Scalar => 0,
            ElementKind::Register => 1,
            ElementKind::Counter => 2,
            ElementKind::LwwMap => 3,
            ElementKind::List => 4,
            ElementKind::Text => 5,
            ElementKind::XmlElement => 6,
            ElementKind::XmlFragment => 7,
        }
    }

    /// The kind for a tag byte, or `None` if it names no kind.
    pub fn from_tag(tag: u8) -> (kind: Option<Self>)
        ensures
            kind == Self::spec_from_tag(tag),
    {
        match tag {
            0 => Some(ElementKind::Scalar),
            1 => Some(ElementKind::Register),
            2 => Some(ElementKind::Counter),
            3 => Some(ElementKind::LwwMap),
            4 => Some(ElementKind::List),
            5 => Some(ElementKind::Text),
            6 => Some(ElementKind::XmlElement),
            7 => Some(ElementKind::XmlFragment),
            _ => None,
        }
    }

    /// Whether this kind is a nested container rather than a leaf.
    pub fn is_container(self) -> (b: bool)
        ensures
            b == self.spec_is_container(),
    {
        match self {
            ElementKind::LwwMap | ElementKind::List | ElementKind::Text | ElementKind::XmlElement
            | ElementKind::XmlFragment => true,
            ElementKind::Scalar | ElementKind::Register | ElementKind::Counter => false,
        }
    }

    /// Whether a container of this kind derives its id from its parent and key, so
    /// the key alone names it. An XML element mixes its tag in below the key.
    pub fn is_key_derived_container(self) -> (b: bool)
        ensures
            b == self.spec_is_key_derived_container(),
    {
        match self {
            ElementKind::LwwMap | ElementKind::List | ElementKind::Text | ElementKind::XmlFragment => {
                true
            },
            ElementKind::Scalar | ElementKind::Register | ElementKind::Counter
            | ElementKind::XmlElement => false,
        }
    }

    /// The container kinds a key names: the candidates a snapshot migration resolves
    /// a retained create against.
    pub fn key_derived_containers() -> (kinds: [Self; 4])
        ensures
            forall|k: ElementKind| #[trigger]
                kinds@.contains(k) <==> k.spec_is_key_derived_container(),
            kinds@ == seq![
                ElementKind::LwwMap,
                ElementKind::List,
                ElementKind::Text,
                ElementKind::XmlFragment,
            ],
    {
        let kinds: [ElementKind; 4] = [
            ElementKind::LwwMap,
            ElementKind::List,
            ElementKind::Text,
            ElementKind::XmlFragment,
        ];
        proof {
            assert(kinds@[0] == ElementKind::LwwMap);
            assert(kinds@[1] == ElementKind::List);
            assert(kinds@[2] == ElementKind::Text);
            assert(kinds@[3] == ElementKind::XmlFragment);
            assert(kinds@ =~= seq![
                ElementKind::LwwMap,
                ElementKind::List,
                ElementKind::Text,
                ElementKind::XmlFragment,
            ]);
        }
        kinds
    }
}

/// A kind and its tag name each other: every kind's tag reads back as it, and a tag
/// that reads as a kind is that kind's.
pub proof fn law_kind_tags_round_trip(kind: ElementKind, tag: u8)
    ensures
        ElementKind::spec_from_tag(kind.spec_tag()) == Some(kind),
        ElementKind::spec_from_tag(tag) matches Some(k) ==> k.spec_tag() == tag,
{
}

/// A kind that the key alone names is a container.
pub proof fn law_key_derived_kinds_are_containers(kind: ElementKind)
    ensures
        kind.spec_is_key_derived_container() ==> kind.spec_is_container(),
{
}

} // verus!
