//! Ranged elements: document-level annotations over spans of sequences.

use crate::anchor::RelativePosition;
use crate::elementid::{ElementId, ElementKind};
use crate::scalar::{Scalar, ScalarV};
use vstd::prelude::*;

verus! {

/// One endpoint of a range: the sequence it lives in and its position within.
#[derive(Clone, Copy, PartialEq, Eq, Debug, Structural)]
pub struct RangeAnchor {
    pub seq: ElementId,
    pub pos: RelativePosition,
}

/// The payload a range is created with: a leaf value, or a fresh container.
#[derive(PartialEq, Eq, Debug)]
pub enum RangedInit {
    Scalar(Scalar),
    Composite(ElementKind),
}

/// A create payload as a value.
pub enum RangedInitV {
    Scalar(ScalarV),
    Composite(ElementKind),
}

impl View for RangedInit {
    type V = RangedInitV;

    open spec fn view(&self) -> RangedInitV {
        match *self {
            RangedInit::Scalar(s) => RangedInitV::Scalar(s@),
            RangedInit::Composite(k) => RangedInitV::Composite(k),
        }
    }
}

impl Clone for RangedInit {
    fn clone(&self) -> (r: Self)
        ensures
            r@ == self@,
    {
        match self {
            RangedInit::Scalar(s) => RangedInit::Scalar(s.clone()),
            RangedInit::Composite(k) => RangedInit::Composite(*k),
        }
    }
}

/// The container kinds a range may carry as its payload.
pub open spec fn spec_is_composite_payload_kind(kind: ElementKind) -> bool {
    kind == ElementKind::LwwMap || kind == ElementKind::List || kind == ElementKind::Text
}

/// Whether `kind` may be a range's composite payload.
pub fn is_composite_payload_kind(kind: ElementKind) -> (b: bool)
    ensures
        b == spec_is_composite_payload_kind(kind),
{
    kind == ElementKind::LwwMap || kind == ElementKind::List || kind == ElementKind::Text
}

} // verus!
