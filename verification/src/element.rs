//! Element: the tagged value a map slot or a sequence node holds: an inline scalar or
//! register, or a handle to a composite. A handle is the composite's kind and id; its
//! contents live in the document's registries, where one id is one logical element.

use crate::elementid::{ElementId, ElementKind};
use crate::register::{Register, RegisterV};
use crate::scalar::{Scalar, ScalarV};
use vstd::prelude::*;

verus! {

/// What a slot holds.
#[derive(PartialEq, Eq, Debug)]
pub enum Element {
    Scalar(Scalar),
    Register(Register),
    Counter(ElementId),
    LwwMap(ElementId),
    List(ElementId),
    Text(ElementId),
    XmlElement(ElementId),
    XmlFragment(ElementId),
}

/// What a slot holds, by value.
pub enum ElementV {
    Scalar(ScalarV),
    Register(RegisterV),
    Counter(ElementId),
    LwwMap(ElementId),
    List(ElementId),
    Text(ElementId),
    XmlElement(ElementId),
    XmlFragment(ElementId),
}

impl View for Element {
    type V = ElementV;

    open spec fn view(&self) -> ElementV {
        match *self {
            Element::Scalar(s) => ElementV::Scalar(s@),
            Element::Register(r) => ElementV::Register(r@),
            Element::Counter(id) => ElementV::Counter(id),
            Element::LwwMap(id) => ElementV::LwwMap(id),
            Element::List(id) => ElementV::List(id),
            Element::Text(id) => ElementV::Text(id),
            Element::XmlElement(id) => ElementV::XmlElement(id),
            Element::XmlFragment(id) => ElementV::XmlFragment(id),
        }
    }
}

impl ElementV {
    pub open spec fn kind(self) -> ElementKind {
        match self {
            ElementV::Scalar(_) => ElementKind::Scalar,
            ElementV::Register(_) => ElementKind::Register,
            ElementV::Counter(_) => ElementKind::Counter,
            ElementV::LwwMap(_) => ElementKind::LwwMap,
            ElementV::List(_) => ElementKind::List,
            ElementV::Text(_) => ElementKind::Text,
            ElementV::XmlElement(_) => ElementKind::XmlElement,
            ElementV::XmlFragment(_) => ElementKind::XmlFragment,
        }
    }

    /// Whether the element is a nested container.
    pub open spec fn is_container(self) -> bool {
        self.kind().spec_is_container()
    }

    /// The element's id; a scalar has none.
    pub open spec fn opt_id(self) -> Option<ElementId> {
        match self {
            ElementV::Scalar(_) => None,
            ElementV::Register(r) => Some(r.id),
            ElementV::Counter(id) => Some(id),
            ElementV::LwwMap(id) => Some(id),
            ElementV::List(id) => Some(id),
            ElementV::Text(id) => Some(id),
            ElementV::XmlElement(id) => Some(id),
            ElementV::XmlFragment(id) => Some(id),
        }
    }

    /// Whether the element is a handle to a composite held in a registry.
    pub open spec fn is_handle(self) -> bool {
        !(self is Scalar) && !(self is Register)
    }

    /// Whether two elements are handles to the same composite.
    pub open spec fn same_handle(self, other: ElementV) -> bool {
        self.is_handle() && self == other
    }
}

/// The handle to the composite `id` of a kind that registries hold.
pub open spec fn spec_handle(kind: ElementKind, id: ElementId) -> Option<ElementV> {
    match kind {
        ElementKind::Scalar => None,
        ElementKind::Register => None,
        ElementKind::Counter => Some(ElementV::Counter(id)),
        ElementKind::LwwMap => Some(ElementV::LwwMap(id)),
        ElementKind::List => Some(ElementV::List(id)),
        ElementKind::Text => Some(ElementV::Text(id)),
        ElementKind::XmlElement => Some(ElementV::XmlElement(id)),
        ElementKind::XmlFragment => Some(ElementV::XmlFragment(id)),
    }
}

/// An optional element, by value.
pub open spec fn opt_element(e: Option<Element>) -> Option<ElementV> {
    match e {
        Some(e) => Some(e@),
        None => None,
    }
}

impl Clone for Element {
    fn clone(&self) -> (r: Self)
        ensures
            r@ == self@,
    {
        match self {
            Element::Scalar(s) => Element::Scalar(s.clone()),
            Element::Register(r) => Element::Register(r.clone()),
            Element::Counter(id) => Element::Counter(*id),
            Element::LwwMap(id) => Element::LwwMap(*id),
            Element::List(id) => Element::List(*id),
            Element::Text(id) => Element::Text(*id),
            Element::XmlElement(id) => Element::XmlElement(*id),
            Element::XmlFragment(id) => Element::XmlFragment(*id),
        }
    }
}

impl Element {
    pub fn kind(&self) -> (k: ElementKind)
        ensures
            k == self@.kind(),
    {
        match self {
            Element::Scalar(_) => ElementKind::Scalar,
            Element::Register(_) => ElementKind::Register,
            Element::Counter(_) => ElementKind::Counter,
            Element::LwwMap(_) => ElementKind::LwwMap,
            Element::List(_) => ElementKind::List,
            Element::Text(_) => ElementKind::Text,
            Element::XmlElement(_) => ElementKind::XmlElement,
            Element::XmlFragment(_) => ElementKind::XmlFragment,
        }
    }

    /// Whether this element is a nested container: the kinds addressed by element id,
    /// whose create a migration carries verbatim.
    pub fn is_container(&self) -> (b: bool)
        ensures
            b == self@.is_container(),
    {
        self.kind().is_container()
    }

    /// The element's id; a scalar has none.
    pub fn opt_id(&self) -> (id: Option<ElementId>)
        ensures
            id == self@.opt_id(),
    {
        match self {
            Element::Scalar(_) => None,
            Element::Register(r) => Some(r.id),
            Element::Counter(id) => Some(*id),
            Element::LwwMap(id) => Some(*id),
            Element::List(id) => Some(*id),
            Element::Text(id) => Some(*id),
            Element::XmlElement(id) => Some(*id),
            Element::XmlFragment(id) => Some(*id),
        }
    }

    /// The id of an element that is not a scalar.
    pub fn id(&self) -> (id: ElementId)
        requires
            !(self@ is Scalar),
        ensures
            Some(id) == self@.opt_id(),
    {
        match self {
            Element::Scalar(_) => ElementId { bits: 0 },
            Element::Register(r) => r.id,
            Element::Counter(id) => *id,
            Element::LwwMap(id) => *id,
            Element::List(id) => *id,
            Element::Text(id) => *id,
            Element::XmlElement(id) => *id,
            Element::XmlFragment(id) => *id,
        }
    }

    /// Whether two elements are handles to the same composite.
    pub fn same_handle(&self, other: &Element) -> (b: bool)
        ensures
            b == self@.same_handle(other@),
    {
        match (self, other) {
            (Element::Counter(a), Element::Counter(b)) => *a == *b,
            (Element::LwwMap(a), Element::LwwMap(b)) => *a == *b,
            (Element::List(a), Element::List(b)) => *a == *b,
            (Element::Text(a), Element::Text(b)) => *a == *b,
            (Element::XmlElement(a), Element::XmlElement(b)) => *a == *b,
            (Element::XmlFragment(a), Element::XmlFragment(b)) => *a == *b,
            _ => false,
        }
    }

    /// The handle to the composite `id`, for a kind that registries hold.
    pub fn handle(kind: ElementKind, id: ElementId) -> (e: Option<Element>)
        ensures
            opt_element(e) == spec_handle(kind, id),
    {
        match kind {
            ElementKind::Scalar | ElementKind::Register => None,
            ElementKind::Counter => Some(Element::Counter(id)),
            ElementKind::LwwMap => Some(Element::LwwMap(id)),
            ElementKind::List => Some(Element::List(id)),
            ElementKind::Text => Some(Element::Text(id)),
            ElementKind::XmlElement => Some(Element::XmlElement(id)),
            ElementKind::XmlFragment => Some(Element::XmlFragment(id)),
        }
    }
}

/// A copy of an optional element.
pub(crate) fn copy_opt_element(e: &Option<Element>) -> (r: Option<Element>)
    ensures
        opt_element(r) == opt_element(*e),
{
    match e {
        Some(e) => Some(e.clone()),
        None => None,
    }
}

} // verus!
