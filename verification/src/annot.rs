//! What a document keeps beside its tree: annotations over spans of sequences, and
//! authorization tuples.

use crate::acl::{AclEffect, AclGrant, AclGrantV, AclSubject, AclSubjectV};
use crate::bytes::{copy_opt, opt_bytes};
use crate::clientid::ClientId;
use crate::counter::Counter;
use crate::elementid::{ElementId, ElementKind};
use crate::identity::{payload_id, spec_payload_id};
use crate::list::List;
use crate::map::LwwMap;
use crate::op::TxId;
use crate::ranged::RangeAnchor;
use crate::registry::Held;
use crate::scalar::{Scalar, ScalarV};
use crate::stamp::{stamp_lt, Stamp};
use crate::table::{Key, Table};
use crate::text::Text;
use crate::xml::{XmlElement, XmlFragment};
use vstd::prelude::*;

verus! {

impl Held for LwwMap {
    open spec fn fit(&self, id: ElementId) -> bool {
        self.wf() && self.id == id
    }
}

impl Held for List {
    open spec fn fit(&self, id: ElementId) -> bool {
        self.wf() && self.id == id
    }
}

impl Held for Text {
    open spec fn fit(&self, id: ElementId) -> bool {
        self.wf() && self.seq.id == id
    }
}

impl Held for Counter {
    open spec fn fit(&self, id: ElementId) -> bool {
        self.wf() && self.id == id
    }
}

impl Held for XmlElement {
    open spec fn fit(&self, id: ElementId) -> bool {
        true
    }
}

impl Held for XmlFragment {
    open spec fn fit(&self, id: ElementId) -> bool {
        true
    }
}

/// One placement of a movable XML node: its node in some children sequence.
#[derive(Clone, Copy, PartialEq, Eq, Debug, Structural)]
pub struct Placement {
    pub list: ElementId,
    pub stamp: Stamp,
}

impl View for Placement {
    type V = Placement;

    open spec fn view(&self) -> Placement {
        *self
    }
}

impl Key for Placement {
    open spec fn before(a: Placement, b: Placement) -> bool {
        a.list.bits < b.list.bits || (a.list.bits == b.list.bits && stamp_lt(a.stamp, b.stamp))
    }

    proof fn before_total(a: Placement, b: Placement) {
    }

    proof fn before_trans(a: Placement, b: Placement, c: Placement) {
    }

    fn less(&self, other: &Self) -> (r: bool) {
        if self.list.bits != other.list.bits {
            self.list.bits < other.list.bits
        } else {
            other.stamp.gt(&self.stamp)
        }
    }
}

/// A node's placements.
pub struct Places {
    pub at: Vec<Placement>,
}

impl View for Places {
    type V = Seq<Placement>;

    open spec fn view(&self) -> Seq<Placement> {
        self.at@
    }
}

impl Held for Places {
    open spec fn fit(&self, id: ElementId) -> bool {
        true
    }
}

/// An atomic group under its author.
#[derive(Clone, Copy, PartialEq, Eq, Hash, Debug, Structural)]
pub struct GroupKey {
    pub client: ClientId,
    pub tx: TxId,
}

impl View for GroupKey {
    type V = GroupKey;

    open spec fn view(&self) -> GroupKey {
        *self
    }
}

impl Key for GroupKey {
    open spec fn before(a: GroupKey, b: GroupKey) -> bool {
        a.client.bits < b.client.bits || (a.client.bits == b.client.bits && a.tx.0 < b.tx.0)
    }

    proof fn before_total(a: GroupKey, b: GroupKey) {
    }

    proof fn before_trans(a: GroupKey, b: GroupKey, c: GroupKey) {
    }

    fn less(&self, other: &Self) -> (r: bool) {
        if self.client.bits != other.client.bits {
            self.client.bits < other.client.bits
        } else {
            self.tx.0 < other.tx.0
        }
    }
}

/// An annotation's payload: a value with the stamp that last set it, or the kind of a
/// container held in a registry.
pub enum Payload {
    Scalar { value: Scalar, stamp: Stamp },
    Composite { kind: ElementKind },
}

/// A payload, by value.
pub enum PayloadV {
    Scalar { value: ScalarV, stamp: Stamp },
    Composite { kind: ElementKind },
}

impl View for Payload {
    type V = PayloadV;

    open spec fn view(&self) -> PayloadV {
        match *self {
            Payload::Scalar { value, stamp } => PayloadV::Scalar { value: value@, stamp },
            Payload::Composite { kind } => PayloadV::Composite { kind },
        }
    }
}

/// A stored annotation: fixed endpoints, a payload, a name, and a tombstone that a delete
/// raises.
pub struct RangedEntry {
    pub start: RangeAnchor,
    pub end: RangeAnchor,
    pub payload: Payload,
    pub name: Option<Vec<u8>>,
    pub tombstone: bool,
}

/// A stored annotation, by value.
pub struct RangedEntryV {
    pub start: RangeAnchor,
    pub end: RangeAnchor,
    pub payload: PayloadV,
    pub name: Option<Seq<u8>>,
    pub tombstone: bool,
}

impl View for RangedEntry {
    type V = RangedEntryV;

    open spec fn view(&self) -> RangedEntryV {
        RangedEntryV {
            start: self.start,
            end: self.end,
            payload: self.payload@,
            name: opt_bytes(self.name),
            tombstone: self.tombstone,
        }
    }
}

impl Held for RangedEntry {
    open spec fn fit(&self, id: ElementId) -> bool {
        true
    }
}

/// The payload of an annotation as a reader sees it.
#[derive(PartialEq, Eq, Debug)]
pub enum RangedPayload {
    Scalar(Scalar),
    Composite { id: ElementId, kind: ElementKind },
}

/// The payload a reader sees, by value.
pub enum RangedPayloadV {
    Scalar(ScalarV),
    Composite { id: ElementId, kind: ElementKind },
}

impl View for RangedPayload {
    type V = RangedPayloadV;

    open spec fn view(&self) -> RangedPayloadV {
        match *self {
            RangedPayload::Scalar(s) => RangedPayloadV::Scalar(s@),
            RangedPayload::Composite { id, kind } => RangedPayloadV::Composite { id, kind },
        }
    }
}

/// An annotation as a reader sees it.
#[derive(PartialEq, Eq, Debug)]
pub struct RangedElement {
    pub id: ElementId,
    pub start: RangeAnchor,
    pub end: RangeAnchor,
    pub payload: RangedPayload,
    pub name: Option<Vec<u8>>,
}

/// An annotation a reader sees, by value.
pub struct RangedElementV {
    pub id: ElementId,
    pub start: RangeAnchor,
    pub end: RangeAnchor,
    pub payload: RangedPayloadV,
    pub name: Option<Seq<u8>>,
}

impl View for RangedElement {
    type V = RangedElementV;

    open spec fn view(&self) -> RangedElementV {
        RangedElementV {
            id: self.id,
            start: self.start,
            end: self.end,
            payload: self.payload@,
            name: opt_bytes(self.name),
        }
    }
}

impl RangedEntryV {
    /// What a reader sees of the entry under its id.
    pub open spec fn shown(self, id: ElementId) -> RangedElementV {
        RangedElementV {
            id,
            start: self.start,
            end: self.end,
            payload: match self.payload {
                PayloadV::Scalar { value, .. } => RangedPayloadV::Scalar(value),
                PayloadV::Composite { kind } => RangedPayloadV::Composite {
                    id: spec_payload_id(id, kind),
                    kind,
                },
            },
            name: self.name,
        }
    }
}

impl RangedEntry {
    /// What a reader sees of the entry under its id.
    pub fn show(&self, id: ElementId) -> (r: RangedElement)
        ensures
            r@ == self@.shown(id),
    {
        let payload = match &self.payload {
            Payload::Scalar { value, .. } => RangedPayload::Scalar(value.clone()),
            Payload::Composite { kind } => RangedPayload::Composite {
                id: payload_id(id, *kind),
                kind: *kind,
            },
        };
        RangedElement {
            id,
            start: self.start,
            end: self.end,
            payload,
            name: copy_opt(&self.name),
        }
    }
}

/// A stored authorization tuple: the immutable grant, and every actor that has revoked it.
pub struct AclEntry {
    pub subject: AclSubject,
    pub grant: AclGrant,
    pub effect: AclEffect,
    pub path: Vec<u8>,
    pub grantor: ClientId,
    pub revokers: Table<ClientId, ()>,
}

/// A stored tuple, by value.
pub struct AclEntryV {
    pub subject: AclSubjectV,
    pub grant: AclGrantV,
    pub effect: AclEffect,
    pub path: Seq<u8>,
    pub grantor: ClientId,
    pub revokers: Set<ClientId>,
}

impl View for AclEntry {
    type V = AclEntryV;

    open spec fn view(&self) -> AclEntryV {
        AclEntryV {
            subject: self.subject@,
            grant: self.grant@,
            effect: self.effect,
            path: self.path@,
            grantor: self.grantor,
            revokers: self.revokers@.dom(),
        }
    }
}

impl Held for AclEntry {
    open spec fn fit(&self, id: ElementId) -> bool {
        self.revokers.wf()
    }
}

} // verus!
