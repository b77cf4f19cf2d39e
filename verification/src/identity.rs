//! The ids that ops derive, the ids they reserve, and which ops any replica may hold.

use crate::clientid::ClientId;
use crate::codec::{put_client, put_u64};
use crate::elementid::{derived_id, ElementId, ElementKind};
use crate::format::enc_u64;
use crate::op::{Op, OpId, OpKind, OpKindV, OpV, MAX_TX_MEMBERS};
use crate::stamp::{Stamp, LAMPORT_STATE_CEILING};
use vstd::prelude::*;

verus! {

/// The well-known root every replica shares, so children derive under the same parent:
/// the bytes of `crdtsync`, four zero bytes and `root`.
pub const ROOT_BITS: u128 = 0x6372_6474_7379_6e63_0000_0000_726f_6f74;

/// The namespace of annotation ids: `crdtsync`, a zero byte, `ranged`, a zero byte.
pub const RANGED_BITS: u128 = 0x6372_6474_7379_6e63_0072_616e_6765_6400;

/// The namespace of authorization ids: `crdtsync`, a zero byte, `acl`, four zero bytes.
pub const ACL_BITS: u128 = 0x6372_6474_7379_6e63_0061_636c_0000_0000;

/// The namespace of reveal shells: `crdtsync`, a zero byte, `reveal`, a zero byte.
pub const REVEAL_BITS: u128 = 0x6372_6474_7379_6e63_0072_6576_6561_6c00;

/// The root's id.
pub open spec fn root_element() -> ElementId {
    ElementId { bits: ROOT_BITS }
}

/// The root's id.
pub(crate) fn root_id() -> (id: ElementId)
    ensures
        id == root_element(),
{
    ElementId { bits: ROOT_BITS }
}

/// A stamp as derivation-key bytes: lamport, then client. The offset is not in it.
pub open spec fn spec_stamp_key(stamp: Stamp) -> Seq<u8> {
    enc_u64(stamp.lamport) + stamp.client.bytes()
}

/// The bytes `payload`.
pub open spec fn payload_key() -> Seq<u8> {
    seq![112u8, 97u8, 121u8, 108u8, 111u8, 97u8, 100u8]
}

/// The id of the child a sequence node at `stamp` in `list` is.
pub open spec fn spec_xml_child_id(list: ElementId, stamp: Stamp, kind: ElementKind) -> ElementId {
    derived_id(list, spec_stamp_key(stamp), kind)
}

/// The id of the annotation a create at `stamp` mints.
pub open spec fn spec_ranged_id(stamp: Stamp) -> ElementId {
    derived_id((ElementId { bits: RANGED_BITS }), spec_stamp_key(stamp), ElementKind::Scalar)
}

/// The id of the authorization tuple a grant at `stamp` mints.
pub open spec fn spec_acl_id(stamp: Stamp) -> ElementId {
    derived_id((ElementId { bits: ACL_BITS }), spec_stamp_key(stamp), ElementKind::Scalar)
}

/// The id of an annotation's payload container.
pub open spec fn spec_payload_id(ranged: ElementId, kind: ElementKind) -> ElementId {
    derived_id(ranged, payload_key(), kind)
}

/// The author a reveal shell for `node` carries.
pub open spec fn reveal_client(node: ElementId) -> ClientId {
    ClientId {
        bits: derived_id((ElementId { bits: REVEAL_BITS }), node.bytes(), ElementKind::XmlElement).bits,
    }
}

fn stamp_key(stamp: Stamp) -> (k: Vec<u8>)
    ensures
        k@ == spec_stamp_key(stamp),
{
    let mut k: Vec<u8> = Vec::new();
    put_u64(&mut k, stamp.lamport);
    put_client(&mut k, &stamp.client);
    proof {
        assert(Seq::<u8>::empty() + enc_u64(stamp.lamport) + stamp.client.bytes()
            =~= spec_stamp_key(stamp));
    }
    k
}

pub(crate) fn xml_child_id(list: ElementId, stamp: Stamp, kind: ElementKind) -> (id: ElementId)
    ensures
        id == spec_xml_child_id(list, stamp, kind),
{
    ElementId::derive(list, stamp_key(stamp).as_slice(), kind)
}

pub(crate) fn ranged_id(stamp: Stamp) -> (id: ElementId)
    ensures
        id == spec_ranged_id(stamp),
{
    ElementId::derive((ElementId { bits: RANGED_BITS }), stamp_key(stamp).as_slice(), ElementKind::Scalar)
}

pub(crate) fn acl_id(stamp: Stamp) -> (id: ElementId)
    ensures
        id == spec_acl_id(stamp),
{
    ElementId::derive((ElementId { bits: ACL_BITS }), stamp_key(stamp).as_slice(), ElementKind::Scalar)
}

pub(crate) fn payload_id(ranged: ElementId, kind: ElementKind) -> (id: ElementId)
    ensures
        id == spec_payload_id(ranged, kind),
{
    let key: [u8; 7] = [112, 97, 121, 108, 111, 97, 100];
    proof {
        assert(key@ =~= payload_key());
    }
    ElementId::derive(ranged, &key, kind)
}

/// The id a reveal shell for `node` carries: its own author, and sequence zero.
pub(crate) fn reveal_op_id(node: ElementId) -> (id: OpId)
    ensures
        id == (OpId { client: reveal_client(node), seq: 0 }),
{
    let bytes: [u8; 16] = node.as_bytes();
    let derived = ElementId::derive((ElementId { bits: REVEAL_BITS }), &bytes, ElementKind::XmlElement);
    OpId { client: ClientId { bits: derived.bits }, seq: 0 }
}

/// Whether `node` is a child that a birth at `stamp` in `list` derives: the tagged one or
/// the tagless one.
pub open spec fn spec_born_at(list: ElementId, stamp: Stamp, node: ElementId) -> bool {
    spec_xml_child_id(list, stamp, ElementKind::XmlElement) == node || spec_xml_child_id(
        list,
        stamp,
        ElementKind::Text,
    ) == node
}

pub(crate) fn born_at(list: ElementId, stamp: Stamp, node: ElementId) -> (b: bool)
    ensures
        b == spec_born_at(list, stamp, node),
{
    xml_child_id(list, stamp, ElementKind::XmlElement) == node || xml_child_id(
        list,
        stamp,
        ElementKind::Text,
    ) == node
}

// --- reservations ---

/// How many consecutive ids an op takes from its stamp: a text run one per codepoint,
/// every other op one.
pub open spec fn spec_span(kind: OpKindV) -> nat {
    match kind {
        OpKindV::TextInsert { s, .. } => if s.len() == 0 {
            1
        } else {
            s.len()
        },
        _ => 1,
    }
}

pub(crate) fn span(kind: &OpKind) -> (n: u64)
    ensures
        n == spec_span(kind@),
        n >= 1,
{
    match kind {
        OpKind::TextInsert { s, .. } => {
            let n: usize = s.as_str().unicode_len();
            if n == 0 {
                1
            } else {
                n as u64
            }
        },
        _ => 1,
    }
}

/// The lamport of the last id an op reserves.
pub open spec fn spec_reservation_end(stamp: Stamp, span: nat) -> nat {
    if stamp.lamport + span - 1 <= u64::MAX {
        (stamp.lamport + span - 1) as nat
    } else {
        u64::MAX as nat
    }
}

pub(crate) fn reservation_end(stamp: Stamp, span: u64) -> (n: u64)
    requires
        span >= 1,
    ensures
        n == spec_reservation_end(stamp, span as nat),
{
    match stamp.lamport.checked_add(span - 1) {
        Some(n) => n,
        None => u64::MAX,
    }
}

/// The stamp a mint gives out: strictly past `from`, with room for `span` ids under the
/// ceiling, or nothing.
pub open spec fn spec_mint_position(from: u64, span: nat, client: ClientId) -> Option<Stamp> {
    if from + span <= LAMPORT_STATE_CEILING {
        Some(Stamp { lamport: (from + 1) as u64, client, offset: 0 })
    } else {
        None
    }
}

pub(crate) fn mint_position(from: u64, span: u64, client: ClientId) -> (s: Option<Stamp>)
    requires
        span >= 1,
    ensures
        s == spec_mint_position(from, span as nat, client),
{
    match from.checked_add(span) {
        Some(last) => if last > LAMPORT_STATE_CEILING {
            None
        } else {
            Some(Stamp { lamport: from + 1, client, offset: 0 })
        },
        None => None,
    }
}

/// A stamp no op can ever occupy: past the ceiling.
pub open spec fn spec_unmintable(client: ClientId) -> Stamp {
    Stamp { lamport: u64::MAX, client, offset: 0 }
}

pub(crate) fn unmintable_stamp(client: ClientId) -> (s: Stamp)
    ensures
        s == spec_unmintable(client),
{
    Stamp { lamport: u64::MAX, client, offset: 0 }
}

// --- admission ---

/// Whether any replica may hold an op at all: its stamp names its author, sits where an
/// id may exist, and the group it declares has a size one can have.
pub open spec fn admissible(op: OpV) -> bool {
    &&& op.stamp.client == op.id.client
    &&& op.stamp.offset == 0
    &&& op.stamp.lamport + spec_span(op.kind) - 1 <= LAMPORT_STATE_CEILING
    &&& op.tx matches Some(tx) ==> 1 <= tx.count <= MAX_TX_MEMBERS
}

impl Op {
    /// Whether any replica may hold this op at all. An op for which this is false is
    /// refused by every replica, forever: the answer reads the op and nothing else.
    pub fn is_admissible(&self) -> (b: bool)
        ensures
            b == admissible(self@),
    {
        if self.stamp.client != self.id.client || self.stamp.offset != 0 {
            return false;
        }
        if reservation_end(self.stamp, span(&self.kind)) > LAMPORT_STATE_CEILING {
            return false;
        }
        match self.tx {
            Some(tx) => 1 <= tx.count && tx.count <= MAX_TX_MEMBERS,
            None => true,
        }
    }
}

/// The key a create puts its container at, for a create into a map slot.
pub open spec fn spec_create_child_key(kind: OpKindV) -> Option<Seq<u8>> {
    match kind {
        OpKindV::MapCreate { key } => Some(key),
        OpKindV::ListCreate { key } => Some(key),
        OpKindV::TextCreate { key } => Some(key),
        OpKindV::XmlFragmentCreate { key } => Some(key),
        OpKindV::XmlElementCreate { key, .. } => Some(key),
        _ => None,
    }
}

pub(crate) fn create_child_key(kind: &OpKind) -> (r: Option<&Vec<u8>>)
    ensures
        match r {
            Some(k) => spec_create_child_key(kind@) == Some(k@),
            None => spec_create_child_key(kind@) is None,
        },
{
    match kind {
        OpKind::MapCreate { key } => Some(key),
        OpKind::ListCreate { key } => Some(key),
        OpKind::TextCreate { key } => Some(key),
        OpKind::XmlFragmentCreate { key } => Some(key),
        OpKind::XmlElementCreate { key, .. } => Some(key),
        _ => None,
    }
}

/// What a mint gives out, every replica admits: an op stamped with it, by its author and
/// outside any group, is admissible.
pub proof fn law_minted_ops_are_admissible(from: u64, op: OpV)
    requires
        spec_mint_position(from, spec_span(op.kind), op.id.client) == Some(op.stamp),
        op.tx is None,
    ensures
        admissible(op),
{
}

/// A mint sits strictly past where it was asked to, all of it under the ceiling.
pub proof fn law_mint_clears_its_floor(from: u64, span: nat, client: ClientId)
    requires
        span >= 1,
    ensures
        spec_mint_position(from, span, client) matches Some(s) ==> s.lamport > from && s.client
            == client && s.offset == 0 && s.lamport + span - 1 <= LAMPORT_STATE_CEILING,
        spec_mint_position(from, span, client) is None ==> from + span > LAMPORT_STATE_CEILING,
{
}

} // verus!
