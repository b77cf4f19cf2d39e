//! Op: one edit of a replica, addressed to the container it changes.

use crate::acl::{AclEffect, AclGrant, AclGrantV, AclSubject, AclSubjectV};
use crate::anchor::Anchor;
use crate::bytes::{copy_opt, opt_bytes};
use crate::clientid::ClientId;
use crate::elementid::ElementId;
use crate::ranged::{RangeAnchor, RangedInit, RangedInitV};
use crate::scalar::{Scalar, ScalarV};
use crate::stamp::Stamp;
use vstd::prelude::*;
use vstd::slice::slice_to_vec;

verus! {

/// The most members one atomic group may declare.
pub const MAX_TX_MEMBERS: u32 = 0x1_0000;

/// An op's identity: its author and the author's own sequence number.
#[derive(Clone, Copy, PartialEq, Eq, Hash, Debug, Structural)]
pub struct OpId {
    pub client: ClientId,
    pub seq: u64,
}

/// The id of an atomic group, unique under its author.
#[derive(Clone, Copy, PartialEq, Eq, Hash, Debug, Structural)]
pub struct TxId(pub u64);

/// An op's membership of an atomic group: the group's id and how many ops it has.
#[derive(Clone, Copy, PartialEq, Eq, Debug, Structural)]
pub struct Tx {
    pub id: TxId,
    pub count: u32,
}

/// What an op does to its target.
#[derive(PartialEq, Eq, Debug)]
pub enum OpKind {
    RegisterSet { key: Vec<u8>, value: Scalar },
    CounterInc { key: Vec<u8>, amount: u32 },
    CounterDec { key: Vec<u8>, amount: u32 },
    MapSet { key: Vec<u8>, value: Scalar },
    MapDelete { key: Vec<u8> },
    MapCreate { key: Vec<u8> },
    ListCreate { key: Vec<u8> },
    ListInsert { value: Scalar, anchor: Anchor },
    ListDelete { id: Stamp },
    TextCreate { key: Vec<u8> },
    TextInsert { s: String, anchor: Anchor },
    TextDelete { ids: Vec<Stamp> },
    XmlElementCreate { key: Vec<u8>, tag: Vec<u8> },
    XmlFragmentCreate { key: Vec<u8> },
    XmlInsertChild { tag: Option<Vec<u8>>, anchor: Anchor },
    XmlMove { node: ElementId, anchor: Anchor },
    /// A node materialised with its tag and no position. Synthesized per reader,
    /// never authored, logged or encoded.
    XmlReveal { node: ElementId, tag: Option<Vec<u8>> },
    RangedCreate {
        start: RangeAnchor,
        end: RangeAnchor,
        payload: RangedInit,
        name: Option<Vec<u8>>,
    },
    RangedSetPayload { id: ElementId, payload: Scalar },
    RangedDelete { id: ElementId },
    AclGrant {
        subject: AclSubject,
        grant: AclGrant,
        effect: AclEffect,
        path: Vec<u8>,
        grantor: ClientId,
    },
    AclRevoke { id: ElementId },
}

/// One edit: its identity, its causal position, the container it addresses, what it
/// does there, the atomic group it belongs to, if any, and the zone whose partition it
/// was stamped in (none for the root partition).
#[derive(PartialEq, Eq, Debug)]
pub struct Op {
    pub id: OpId,
    pub stamp: Stamp,
    pub target: ElementId,
    pub kind: OpKind,
    pub tx: Option<Tx>,
    pub zone: Option<u32>,
}

/// An op kind as a value.
pub enum OpKindV {
    RegisterSet { key: Seq<u8>, value: ScalarV },
    CounterInc { key: Seq<u8>, amount: u32 },
    CounterDec { key: Seq<u8>, amount: u32 },
    MapSet { key: Seq<u8>, value: ScalarV },
    MapDelete { key: Seq<u8> },
    MapCreate { key: Seq<u8> },
    ListCreate { key: Seq<u8> },
    ListInsert { value: ScalarV, anchor: Anchor },
    ListDelete { id: Stamp },
    TextCreate { key: Seq<u8> },
    TextInsert { s: Seq<char>, anchor: Anchor },
    TextDelete { ids: Seq<Stamp> },
    XmlElementCreate { key: Seq<u8>, tag: Seq<u8> },
    XmlFragmentCreate { key: Seq<u8> },
    XmlInsertChild { tag: Option<Seq<u8>>, anchor: Anchor },
    XmlMove { node: ElementId, anchor: Anchor },
    XmlReveal { node: ElementId, tag: Option<Seq<u8>> },
    RangedCreate {
        start: RangeAnchor,
        end: RangeAnchor,
        payload: RangedInitV,
        name: Option<Seq<u8>>,
    },
    RangedSetPayload { id: ElementId, payload: ScalarV },
    RangedDelete { id: ElementId },
    AclGrant {
        subject: AclSubjectV,
        grant: AclGrantV,
        effect: AclEffect,
        path: Seq<u8>,
        grantor: ClientId,
    },
    AclRevoke { id: ElementId },
}

/// An op as a value.
pub struct OpV {
    pub id: OpId,
    pub stamp: Stamp,
    pub target: ElementId,
    pub kind: OpKindV,
    pub tx: Option<Tx>,
    pub zone: Option<u32>,
}

impl View for OpKind {
    type V = OpKindV;

    open spec fn view(&self) -> OpKindV {
        match *self {
            OpKind::RegisterSet { key, value } => OpKindV::RegisterSet { key: key@, value: value@ },
            OpKind::CounterInc { key, amount } => OpKindV::CounterInc { key: key@, amount },
            OpKind::CounterDec { key, amount } => OpKindV::CounterDec { key: key@, amount },
            OpKind::MapSet { key, value } => OpKindV::MapSet { key: key@, value: value@ },
            OpKind::MapDelete { key } => OpKindV::MapDelete { key: key@ },
            OpKind::MapCreate { key } => OpKindV::MapCreate { key: key@ },
            OpKind::ListCreate { key } => OpKindV::ListCreate { key: key@ },
            OpKind::ListInsert { value, anchor } => OpKindV::ListInsert { value: value@, anchor },
            OpKind::ListDelete { id } => OpKindV::ListDelete { id },
            OpKind::TextCreate { key } => OpKindV::TextCreate { key: key@ },
            OpKind::TextInsert { s, anchor } => OpKindV::TextInsert { s: s@, anchor },
            OpKind::TextDelete { ids } => OpKindV::TextDelete { ids: ids@ },
            OpKind::XmlElementCreate { key, tag } => OpKindV::XmlElementCreate {
                key: key@,
                tag: tag@,
            },
            OpKind::XmlFragmentCreate { key } => OpKindV::XmlFragmentCreate { key: key@ },
            OpKind::XmlInsertChild { tag, anchor } => OpKindV::XmlInsertChild {
                tag: opt_bytes(tag),
                anchor,
            },
            OpKind::XmlMove { node, anchor } => OpKindV::XmlMove { node, anchor },
            OpKind::XmlReveal { node, tag } => OpKindV::XmlReveal { node, tag: opt_bytes(tag) },
            OpKind::RangedCreate { start, end, payload, name } => OpKindV::RangedCreate {
                start,
                end,
                payload: payload@,
                name: opt_bytes(name),
            },
            OpKind::RangedSetPayload { id, payload } => OpKindV::RangedSetPayload {
                id,
                payload: payload@,
            },
            OpKind::RangedDelete { id } => OpKindV::RangedDelete { id },
            OpKind::AclGrant { subject, grant, effect, path, grantor } => OpKindV::AclGrant {
                subject: subject@,
                grant: grant@,
                effect,
                path: path@,
                grantor,
            },
            OpKind::AclRevoke { id } => OpKindV::AclRevoke { id },
        }
    }
}

impl View for Op {
    type V = OpV;

    open spec fn view(&self) -> OpV {
        OpV {
            id: self.id,
            stamp: self.stamp,
            target: self.target,
            kind: self.kind@,
            tx: self.tx,
            zone: self.zone,
        }
    }
}

/// A sequence of ops as values.
pub open spec fn ops_view(ops: Seq<Op>) -> Seq<OpV> {
    ops.map_values(|o: Op| o@)
}

impl Clone for OpKind {
    fn clone(&self) -> (r: Self)
        ensures
            r@ == self@,
    {
        match self {
            OpKind::RegisterSet { key, value } => OpKind::RegisterSet {
                key: slice_to_vec(key.as_slice()),
                value: value.clone(),
            },
            OpKind::CounterInc { key, amount } => OpKind::CounterInc {
                key: slice_to_vec(key.as_slice()),
                amount: *amount,
            },
            OpKind::CounterDec { key, amount } => OpKind::CounterDec {
                key: slice_to_vec(key.as_slice()),
                amount: *amount,
            },
            OpKind::MapSet { key, value } => OpKind::MapSet {
                key: slice_to_vec(key.as_slice()),
                value: value.clone(),
            },
            OpKind::MapDelete { key } => OpKind::MapDelete { key: slice_to_vec(key.as_slice()) },
            OpKind::MapCreate { key } => OpKind::MapCreate { key: slice_to_vec(key.as_slice()) },
            OpKind::ListCreate { key } => OpKind::ListCreate { key: slice_to_vec(key.as_slice()) },
            OpKind::ListInsert { value, anchor } => OpKind::ListInsert {
                value: value.clone(),
                anchor: *anchor,
            },
            OpKind::ListDelete { id } => OpKind::ListDelete { id: *id },
            OpKind::TextCreate { key } => OpKind::TextCreate { key: slice_to_vec(key.as_slice()) },
            OpKind::TextInsert { s, anchor } => OpKind::TextInsert {
                s: s.clone(),
                anchor: *anchor,
            },
            OpKind::TextDelete { ids } => OpKind::TextDelete { ids: slice_to_vec(ids.as_slice()) },
            OpKind::XmlElementCreate { key, tag } => OpKind::XmlElementCreate {
                key: slice_to_vec(key.as_slice()),
                tag: slice_to_vec(tag.as_slice()),
            },
            OpKind::XmlFragmentCreate { key } => OpKind::XmlFragmentCreate {
                key: slice_to_vec(key.as_slice()),
            },
            OpKind::XmlInsertChild { tag, anchor } => OpKind::XmlInsertChild {
                tag: copy_opt(tag),
                anchor: *anchor,
            },
            OpKind::XmlMove { node, anchor } => OpKind::XmlMove { node: *node, anchor: *anchor },
            OpKind::XmlReveal { node, tag } => OpKind::XmlReveal {
                node: *node,
                tag: copy_opt(tag),
            },
            OpKind::RangedCreate { start, end, payload, name } => OpKind::RangedCreate {
                start: *start,
                end: *end,
                payload: payload.clone(),
                name: copy_opt(name),
            },
            OpKind::RangedSetPayload { id, payload } => OpKind::RangedSetPayload {
                id: *id,
                payload: payload.clone(),
            },
            OpKind::RangedDelete { id } => OpKind::RangedDelete { id: *id },
            OpKind::AclGrant { subject, grant, effect, path, grantor } => OpKind::AclGrant {
                subject: subject.clone(),
                grant: grant.clone(),
                effect: *effect,
                path: slice_to_vec(path.as_slice()),
                grantor: *grantor,
            },
            OpKind::AclRevoke { id } => OpKind::AclRevoke { id: *id },
        }
    }
}

impl Clone for Op {
    fn clone(&self) -> (r: Self)
        ensures
            r@ == self@,
    {
        Op {
            id: self.id,
            stamp: self.stamp,
            target: self.target,
            kind: self.kind.clone(),
            tx: self.tx,
            zone: self.zone,
        }
    }
}

impl Op {
    /// An op outside any atomic group, in the root partition.
    pub fn new(id: OpId, stamp: Stamp, target: ElementId, kind: OpKind) -> (op: Op)
        ensures
            op@ == (OpV { id, stamp, target, kind: kind@, tx: None, zone: None }),
    {
        Op { id, stamp, target, kind, tx: None, zone: None }
    }
}

} // verus!
