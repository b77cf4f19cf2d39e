//! The wire format: what each value's bytes are, and how a byte string reads back.
//!
//! Each type has an encoding (`enc_*`) and a reading (`parse_*`), the latter giving
//! either the value and the bytes left over or the reason the input is malformed.
//! Integers are little-endian; ids are sixteen raw bytes; text is UTF-8; byte strings
//! and text are length-prefixed.

use crate::acl::{AclEffect, AclGrantV, AclSubjectV, Capability};
use crate::anchor::{Anchor, RelativePosition, Side};
use crate::clientid::ClientId;
use crate::elementid::{ElementId, ElementKind};
use crate::op::{OpId, OpKindV, OpV, Tx, TxId, MAX_TX_MEMBERS};
use crate::ranged::{spec_is_composite_payload_kind, RangeAnchor, RangedInitV};
use crate::scalar::{BlobV, ScalarV};
use crate::stamp::Stamp;
use crate::wire::{be_value, le_bytes, le_value};
use vstd::prelude::*;
use vstd::utf8::{decode_utf8, encode_utf8, valid_utf8};

verus! {

/// Why a byte string could not be decoded.
#[derive(Clone, PartialEq, Eq, Debug)]
pub enum DecodeError {
    /// The input ended before a field was fully read.
    UnexpectedEof,
    /// A tag byte named no known variant.
    BadTag { what: &'static str, tag: u8 },
    /// A text field held bytes that are not valid UTF-8.
    BadUtf8,
    /// Bytes remained after decoding a single value.
    TrailingBytes,
}

/// A reading: the value and the bytes left over, or why there is none.
pub type Parsed<T> = Result<(T, Seq<u8>), DecodeError>;

/// Concatenation associates, so a run of fields can be read front to back.
pub broadcast proof fn lemma_concat_assoc(a: Seq<u8>, b: Seq<u8>, c: Seq<u8>)
    ensures
        #[trigger] ((a + b) + c) == a + (b + c),
{
    assert((a + b) + c =~= a + (b + c));
}

pub broadcast proof fn lemma_concat_empty(a: Seq<u8>)
    ensures
        #[trigger] (a + Seq::<u8>::empty()) == a,
{
    assert(a + Seq::<u8>::empty() =~= a);
}

// --- encodings ---

pub open spec fn enc_u8(v: u8) -> Seq<u8> {
    seq![v]
}

pub open spec fn enc_u32(v: u32) -> Seq<u8> {
    le_bytes(v as nat, 4)
}

pub open spec fn enc_u64(v: u64) -> Seq<u8> {
    le_bytes(v as nat, 8)
}

/// The two's complement bit pattern of `v`.
pub open spec fn i64_bits(v: i64) -> u64 {
    if v >= 0 {
        v as u64
    } else {
        (v + 0x1_0000_0000_0000_0000) as u64
    }
}

/// The number whose two's complement bit pattern is `n`.
pub open spec fn bits_i64(n: u64) -> i64 {
    if n <= i64::MAX {
        n as i64
    } else {
        (n - 0x1_0000_0000_0000_0000) as i64
    }
}

pub open spec fn enc_i64(v: i64) -> Seq<u8> {
    enc_u64(i64_bits(v))
}

pub open spec fn enc_bool(b: bool) -> Seq<u8> {
    enc_u8(if b {
        1
    } else {
        0
    })
}

/// A length that fits the four-byte prefix.
pub open spec fn fits_u32(n: nat) -> bool {
    n <= u32::MAX
}

#[verifier::opaque]
pub open spec fn enc_bytes(b: Seq<u8>) -> Seq<u8> {
    enc_u32(b.len() as u32) + b
}

#[verifier::opaque]
pub open spec fn enc_opt_bytes(b: Option<Seq<u8>>) -> Seq<u8> {
    match b {
        None => enc_u8(0),
        Some(b) => enc_u8(1) + enc_bytes(b),
    }
}

#[verifier::opaque]
pub open spec fn enc_text(s: Seq<char>) -> Seq<u8> {
    enc_bytes(encode_utf8(s))
}

/// A stamp's lamport and author. The offset is not carried: it is zero in every
/// stamp an op may occupy.
#[verifier::opaque]
pub open spec fn enc_stamp(s: Stamp) -> Seq<u8> {
    enc_u64(s.lamport) + s.client.bytes()
}

#[verifier::opaque]
pub open spec fn enc_scalar(s: ScalarV) -> Seq<u8> {
    match s {
        ScalarV::Null => enc_u8(0),
        ScalarV::Bool(b) => enc_u8(1) + enc_bool(b),
        ScalarV::Int(n) => enc_u8(2) + enc_i64(n),
        ScalarV::Bytes(b) => enc_u8(3) + enc_bytes(b),
        ScalarV::BlobRef(r) => enc_u8(4) + r.id + enc_text(r.mime) + enc_u64(r.size)
            + enc_opt_bytes(r.inline),
        ScalarV::ElementRef(id) => enc_u8(5) + id.bytes(),
    }
}

pub open spec fn enc_opt_stamp(s: Option<Stamp>) -> Seq<u8> {
    match s {
        None => enc_u8(0),
        Some(p) => enc_u8(1) + enc_stamp(p),
    }
}

pub open spec fn enc_side(side: Side) -> Seq<u8> {
    enc_u8(match side {
        Side::Left => 0,
        Side::Right => 1,
    })
}

#[verifier::opaque]
pub open spec fn enc_anchor(a: Anchor) -> Seq<u8> {
    enc_opt_stamp(a.parent) + enc_side(a.side)
}

pub open spec fn enc_rel_position(pos: RelativePosition) -> Seq<u8> {
    match pos {
        RelativePosition::Start => enc_u8(0),
        RelativePosition::End => enc_u8(1),
        RelativePosition::Before(s) => enc_u8(2) + enc_stamp(s),
        RelativePosition::After(s) => enc_u8(3) + enc_stamp(s),
    }
}

#[verifier::opaque]
pub open spec fn enc_range_anchor(a: RangeAnchor) -> Seq<u8> {
    a.seq.bytes() + enc_rel_position(a.pos)
}

pub open spec fn enc_kind(kind: ElementKind) -> Seq<u8> {
    enc_u8(kind.spec_tag())
}

#[verifier::opaque]
pub open spec fn enc_ranged_init(init: RangedInitV) -> Seq<u8> {
    match init {
        RangedInitV::Scalar(value) => enc_u8(0) + enc_scalar(value),
        RangedInitV::Composite(kind) => enc_u8(1) + enc_kind(kind),
    }
}

#[verifier::opaque]
pub open spec fn enc_acl_subject(subject: AclSubjectV) -> Seq<u8> {
    match subject {
        AclSubjectV::Actor(id) => enc_u8(0) + id.bytes(),
        AclSubjectV::Group(name) => enc_u8(1) + enc_bytes(name),
        AclSubjectV::Authenticated => enc_u8(2),
        AclSubjectV::Anonymous => enc_u8(3),
        AclSubjectV::Anyone => enc_u8(4),
    }
}

pub open spec fn enc_capability(cap: Capability) -> Seq<u8> {
    enc_u8(match cap {
        Capability::Read => 0,
        Capability::Write => 1,
        Capability::PublishAwareness => 2,
        Capability::Own => 3,
    })
}

#[verifier::opaque]
pub open spec fn enc_acl_grant(grant: AclGrantV) -> Seq<u8> {
    match grant {
        AclGrantV::Capability(cap) => enc_u8(0) + enc_capability(cap),
        AclGrantV::Role(name) => enc_u8(1) + enc_bytes(name),
    }
}

#[verifier::opaque]
pub open spec fn enc_acl_effect(effect: AclEffect) -> Seq<u8> {
    enc_u8(match effect {
        AclEffect::Allow => 0,
        AclEffect::Deny => 1,
    })
}

pub open spec fn enc_stamps(ids: Seq<Stamp>) -> Seq<u8>
    decreases ids.len(),
{
    if ids.len() == 0 {
        Seq::empty()
    } else {
        enc_stamp(ids[0]) + enc_stamps(ids.skip(1))
    }
}

/// An op kind's bytes. A reveal is never encoded.
#[verifier::opaque]
pub open spec fn enc_opkind(kind: OpKindV) -> Seq<u8> {
    match kind {
        OpKindV::RegisterSet { key, value } => enc_u8(0) + enc_bytes(key) + enc_scalar(value),
        OpKindV::CounterInc { key, amount } => enc_u8(1) + enc_bytes(key) + enc_u32(amount),
        OpKindV::CounterDec { key, amount } => enc_u8(2) + enc_bytes(key) + enc_u32(amount),
        OpKindV::MapSet { key, value } => enc_u8(3) + enc_bytes(key) + enc_scalar(value),
        OpKindV::MapDelete { key } => enc_u8(4) + enc_bytes(key),
        OpKindV::MapCreate { key } => enc_u8(5) + enc_bytes(key),
        OpKindV::ListCreate { key } => enc_u8(6) + enc_bytes(key),
        OpKindV::ListInsert { value, anchor } => enc_u8(7) + enc_scalar(value) + enc_anchor(anchor),
        OpKindV::ListDelete { id } => enc_u8(8) + enc_stamp(id),
        OpKindV::TextCreate { key } => enc_u8(9) + enc_bytes(key),
        OpKindV::TextInsert { s, anchor } => enc_u8(10) + enc_text(s) + enc_anchor(anchor),
        OpKindV::TextDelete { ids } => enc_u8(11) + enc_u32(ids.len() as u32) + enc_stamps(ids),
        OpKindV::XmlElementCreate { key, tag } => enc_u8(12) + enc_bytes(key) + enc_bytes(tag),
        OpKindV::XmlFragmentCreate { key } => enc_u8(13) + enc_bytes(key),
        OpKindV::XmlInsertChild { tag, anchor } => enc_u8(14) + enc_opt_bytes(tag) + enc_anchor(
            anchor,
        ),
        OpKindV::XmlMove { node, anchor } => enc_u8(15) + node.bytes() + enc_anchor(anchor),
        OpKindV::XmlReveal { .. } => Seq::empty(),
        OpKindV::RangedCreate { start, end, payload, name } => enc_u8(16) + enc_range_anchor(start)
            + enc_range_anchor(end) + enc_ranged_init(payload) + enc_opt_bytes(name),
        OpKindV::RangedSetPayload { id, payload } => enc_u8(17) + id.bytes() + enc_scalar(payload),
        OpKindV::RangedDelete { id } => enc_u8(18) + id.bytes(),
        OpKindV::AclGrant { subject, grant, effect, path, grantor } => enc_u8(19) + enc_acl_subject(
            subject,
        ) + enc_acl_grant(grant) + enc_acl_effect(effect) + enc_bytes(path) + grantor.bytes(),
        OpKindV::AclRevoke { id } => enc_u8(20) + id.bytes(),
    }
}

#[verifier::opaque]
pub open spec fn enc_tx(tx: Option<Tx>) -> Seq<u8> {
    match tx {
        None => enc_u8(0),
        Some(tx) => enc_u8(1) + enc_u64(tx.id.0) + enc_u32(tx.count),
    }
}

#[verifier::opaque]
pub open spec fn enc_op(op: OpV) -> Seq<u8> {
    op.id.client.bytes() + enc_u64(op.id.seq) + enc_stamp(op.stamp) + op.target.bytes()
        + enc_opkind(op.kind) + enc_tx(op.tx)
}

/// An op log: each op framed by its length, so the stream is self-delimiting.
pub open spec fn enc_ops(ops: Seq<OpV>) -> Seq<u8>
    decreases ops.len(),
{
    if ops.len() == 0 {
        Seq::empty()
    } else {
        enc_bytes(enc_op(ops[0])) + enc_ops(ops.skip(1))
    }
}

// --- what can be encoded ---

/// Whether every length in the scalar fits its four-byte prefix.
pub open spec fn scalar_fits(s: ScalarV) -> bool {
    match s {
        ScalarV::Bytes(b) => fits_u32(b.len()),
        ScalarV::BlobRef(r) => r.id.len() == 16 && fits_u32(encode_utf8(r.mime).len()) && opt_fits(
            r.inline,
        ),
        _ => true,
    }
}

pub open spec fn opt_fits(b: Option<Seq<u8>>) -> bool {
    b matches Some(b) ==> fits_u32(b.len())
}

/// Whether the kind has an encoding: it is no reveal, and every length in it fits
/// its four-byte prefix.
pub open spec fn opkind_fits(kind: OpKindV) -> bool {
    match kind {
        OpKindV::RegisterSet { key, value } => fits_u32(key.len()) && scalar_fits(value),
        OpKindV::CounterInc { key, .. } => fits_u32(key.len()),
        OpKindV::CounterDec { key, .. } => fits_u32(key.len()),
        OpKindV::MapSet { key, value } => fits_u32(key.len()) && scalar_fits(value),
        OpKindV::MapDelete { key } => fits_u32(key.len()),
        OpKindV::MapCreate { key } => fits_u32(key.len()),
        OpKindV::ListCreate { key } => fits_u32(key.len()),
        OpKindV::ListInsert { value, .. } => scalar_fits(value),
        OpKindV::ListDelete { .. } => true,
        OpKindV::TextCreate { key } => fits_u32(key.len()),
        OpKindV::TextInsert { s, .. } => fits_u32(encode_utf8(s).len()),
        OpKindV::TextDelete { ids } => fits_u32(ids.len()),
        OpKindV::XmlElementCreate { key, tag } => fits_u32(key.len()) && fits_u32(tag.len()),
        OpKindV::XmlFragmentCreate { key } => fits_u32(key.len()),
        OpKindV::XmlInsertChild { tag, .. } => opt_fits(tag),
        OpKindV::XmlMove { .. } => true,
        OpKindV::XmlReveal { .. } => false,
        OpKindV::RangedCreate { payload, name, .. } => opt_fits(name) && ranged_init_fits(payload),
        OpKindV::RangedSetPayload { payload, .. } => scalar_fits(payload),
        OpKindV::RangedDelete { .. } => true,
        OpKindV::AclGrant { subject, grant, path, .. } => acl_subject_fits(subject)
            && acl_grant_fits(grant) && fits_u32(path.len()),
        OpKindV::AclRevoke { .. } => true,
    }
}

pub open spec fn ranged_init_fits(init: RangedInitV) -> bool {
    init matches RangedInitV::Scalar(s) ==> scalar_fits(s)
}

pub open spec fn acl_subject_fits(subject: AclSubjectV) -> bool {
    subject matches AclSubjectV::Group(g) ==> fits_u32(g.len())
}

pub open spec fn acl_grant_fits(grant: AclGrantV) -> bool {
    grant matches AclGrantV::Role(r) ==> fits_u32(r.len())
}

/// Whether the op has an encoding.
pub open spec fn op_fits(op: OpV) -> bool {
    opkind_fits(op.kind)
}

/// Whether every op of a log has an encoding that fits its frame.
pub open spec fn ops_fit(ops: Seq<OpV>) -> bool {
    forall|i: int| 0 <= i < ops.len() ==> op_fits(#[trigger] ops[i]) && fits_u32(enc_op(ops[i]).len())
}

pub open spec fn anchor_carried(a: Anchor) -> bool {
    a.parent matches Some(p) ==> p.offset == 0
}

pub open spec fn position_carried(pos: RelativePosition) -> bool {
    match pos {
        RelativePosition::Before(s) => s.offset == 0,
        RelativePosition::After(s) => s.offset == 0,
        _ => true,
    }
}

/// Whether the encoding carries the whole value: every stamp in it has offset zero,
/// and a composite payload is of a kind a range may hold.
pub open spec fn opkind_carried(kind: OpKindV) -> bool {
    match kind {
        OpKindV::ListInsert { anchor, .. } => anchor_carried(anchor),
        OpKindV::ListDelete { id } => id.offset == 0,
        OpKindV::TextInsert { anchor, .. } => anchor_carried(anchor),
        OpKindV::TextDelete { ids } => forall|i: int|
            0 <= i < ids.len() ==> (#[trigger] ids[i]).offset == 0,
        OpKindV::XmlInsertChild { anchor, .. } => anchor_carried(anchor),
        OpKindV::XmlMove { anchor, .. } => anchor_carried(anchor),
        OpKindV::RangedCreate { start, end, payload, .. } => position_carried(start.pos)
            && position_carried(end.pos) && (payload matches RangedInitV::Composite(k)
            ==> spec_is_composite_payload_kind(k)),
        _ => true,
    }
}

/// Whether the encoding carries the whole op: a stamp with offset zero, and the root
/// partition.
pub open spec fn op_carried(op: OpV) -> bool {
    op.stamp.offset == 0 && op.zone is None && opkind_carried(op.kind) && tx_carried(op.tx)
}

/// Whether a group tag has a form in the bytes: its size is one a group may have.
pub open spec fn tx_carried(tx: Option<Tx>) -> bool {
    tx matches Some(t) ==> 1 <= t.count <= MAX_TX_MEMBERS
}

// --- readings ---

pub open spec fn parse_take(s: Seq<u8>, n: nat) -> Parsed<Seq<u8>> {
    if n <= s.len() {
        Ok((s.take(n as int), s.skip(n as int)))
    } else {
        Err(DecodeError::UnexpectedEof)
    }
}

pub open spec fn parse_u8(s: Seq<u8>) -> Parsed<u8> {
    match parse_take(s, 1) {
        Ok((b, r)) => Ok((b[0], r)),
        Err(e) => Err(e),
    }
}

pub open spec fn parse_u32(s: Seq<u8>) -> Parsed<u32> {
    match parse_take(s, 4) {
        Ok((b, r)) => Ok((le_value(b) as u32, r)),
        Err(e) => Err(e),
    }
}

pub open spec fn parse_u64(s: Seq<u8>) -> Parsed<u64> {
    match parse_take(s, 8) {
        Ok((b, r)) => Ok((le_value(b) as u64, r)),
        Err(e) => Err(e),
    }
}

pub open spec fn parse_i64(s: Seq<u8>) -> Parsed<i64> {
    match parse_u64(s) {
        Ok((n, r)) => Ok((bits_i64(n), r)),
        Err(e) => Err(e),
    }
}

#[verifier::opaque]
pub open spec fn parse_bytes(s: Seq<u8>) -> Parsed<Seq<u8>> {
    match parse_u32(s) {
        Ok((n, r)) => parse_take(r, n as nat),
        Err(e) => Err(e),
    }
}

#[verifier::opaque]
pub open spec fn parse_opt_bytes_as(s: Seq<u8>, what: &'static str) -> Parsed<Option<Seq<u8>>> {
    match parse_u8(s) {
        Err(e) => Err(e),
        Ok((0u8, r)) => Ok((None, r)),
        Ok((1u8, r)) => match parse_bytes(r) {
            Ok((b, r)) => Ok((Some(b), r)),
            Err(e) => Err(e),
        },
        Ok((tag, _)) => Err(DecodeError::BadTag { what, tag }),
    }
}

pub open spec fn parse_opt_bytes(s: Seq<u8>) -> Parsed<Option<Seq<u8>>> {
    parse_opt_bytes_as(s, "optional bytes present-flag")
}

#[verifier::opaque]
pub open spec fn parse_text(s: Seq<u8>) -> Parsed<Seq<char>> {
    match parse_bytes(s) {
        Ok((b, r)) => if valid_utf8(b) {
            Ok((decode_utf8(b), r))
        } else {
            Err(DecodeError::BadUtf8)
        },
        Err(e) => Err(e),
    }
}

pub open spec fn parse_client(s: Seq<u8>) -> Parsed<ClientId> {
    match parse_take(s, 16) {
        Ok((b, r)) => Ok((ClientId { bits: be_value(b) as u128 }, r)),
        Err(e) => Err(e),
    }
}

pub open spec fn parse_element_id(s: Seq<u8>) -> Parsed<ElementId> {
    match parse_take(s, 16) {
        Ok((b, r)) => Ok((ElementId { bits: be_value(b) as u128 }, r)),
        Err(e) => Err(e),
    }
}

#[verifier::opaque]
pub open spec fn parse_stamp(s: Seq<u8>) -> Parsed<Stamp> {
    match parse_u64(s) {
        Err(e) => Err(e),
        Ok((lamport, r)) => match parse_client(r) {
            Err(e) => Err(e),
            Ok((client, r)) => Ok((Stamp { lamport, client, offset: 0 }, r)),
        },
    }
}

#[verifier::opaque]
pub open spec fn parse_scalar(s: Seq<u8>) -> Parsed<ScalarV> {
    match parse_u8(s) {
        Err(e) => Err(e),
        Ok((0u8, r)) => Ok((ScalarV::Null, r)),
        Ok((1u8, r)) => match parse_u8(r) {
            Err(e) => Err(e),
            Ok((0u8, r)) => Ok((ScalarV::Bool(false), r)),
            Ok((1u8, r)) => Ok((ScalarV::Bool(true), r)),
            Ok((tag, _)) => Err(DecodeError::BadTag { what: "scalar bool", tag }),
        },
        Ok((2u8, r)) => match parse_i64(r) {
            Err(e) => Err(e),
            Ok((n, r)) => Ok((ScalarV::Int(n), r)),
        },
        Ok((3u8, r)) => match parse_bytes(r) {
            Err(e) => Err(e),
            Ok((b, r)) => Ok((ScalarV::Bytes(b), r)),
        },
        Ok((4u8, r)) => match parse_blob(r) {
            Err(e) => Err(e),
            Ok((b, r)) => Ok((ScalarV::BlobRef(b), r)),
        },
        Ok((5u8, r)) => match parse_element_id(r) {
            Err(e) => Err(e),
            Ok((id, r)) => Ok((ScalarV::ElementRef(id), r)),
        },
        Ok((tag, _)) => Err(DecodeError::BadTag { what: "scalar", tag }),
    }
}

pub open spec fn parse_blob(s: Seq<u8>) -> Parsed<BlobV> {
    match parse_take(s, 16) {
        Err(e) => Err(e),
        Ok((id, r)) => match parse_text(r) {
            Err(e) => Err(e),
            Ok((mime, r)) => match parse_u64(r) {
                Err(e) => Err(e),
                Ok((size, r)) => match parse_opt_bytes_as(r, "blob inline") {
                    Err(e) => Err(e),
                    Ok((inline, r)) => Ok((BlobV { id, mime, size, inline }, r)),
                },
            },
        },
    }
}

pub open spec fn parse_opt_stamp(s: Seq<u8>) -> Parsed<Option<Stamp>> {
    match parse_u8(s) {
        Err(e) => Err(e),
        Ok((0u8, r)) => Ok((None, r)),
        Ok((1u8, r)) => match parse_stamp(r) {
            Err(e) => Err(e),
            Ok((p, r)) => Ok((Some(p), r)),
        },
        Ok((tag, _)) => Err(DecodeError::BadTag { what: "anchor.parent", tag }),
    }
}

pub open spec fn parse_side(s: Seq<u8>) -> Parsed<Side> {
    match parse_u8(s) {
        Err(e) => Err(e),
        Ok((0u8, r)) => Ok((Side::Left, r)),
        Ok((1u8, r)) => Ok((Side::Right, r)),
        Ok((tag, _)) => Err(DecodeError::BadTag { what: "side", tag }),
    }
}

#[verifier::opaque]
pub open spec fn parse_anchor(s: Seq<u8>) -> Parsed<Anchor> {
    match parse_opt_stamp(s) {
        Err(e) => Err(e),
        Ok((parent, r)) => match parse_side(r) {
            Err(e) => Err(e),
            Ok((side, r)) => Ok((Anchor { parent, side }, r)),
        },
    }
}

pub open spec fn parse_rel_position(s: Seq<u8>) -> Parsed<RelativePosition> {
    match parse_u8(s) {
        Err(e) => Err(e),
        Ok((0u8, r)) => Ok((RelativePosition::Start, r)),
        Ok((1u8, r)) => Ok((RelativePosition::End, r)),
        Ok((2u8, r)) => match parse_stamp(r) {
            Err(e) => Err(e),
            Ok((p, r)) => Ok((RelativePosition::Before(p), r)),
        },
        Ok((3u8, r)) => match parse_stamp(r) {
            Err(e) => Err(e),
            Ok((p, r)) => Ok((RelativePosition::After(p), r)),
        },
        Ok((tag, _)) => Err(DecodeError::BadTag { what: "relative position", tag }),
    }
}

#[verifier::opaque]
pub open spec fn parse_range_anchor(s: Seq<u8>) -> Parsed<RangeAnchor> {
    match parse_element_id(s) {
        Err(e) => Err(e),
        Ok((seq, r)) => match parse_rel_position(r) {
            Err(e) => Err(e),
            Ok((pos, r)) => Ok((RangeAnchor { seq, pos }, r)),
        },
    }
}

pub open spec fn parse_composite_payload_kind(s: Seq<u8>) -> Parsed<ElementKind> {
    match parse_u8(s) {
        Err(e) => Err(e),
        Ok((tag, r)) => match ElementKind::spec_from_tag(tag) {
            Some(kind) if spec_is_composite_payload_kind(kind) => Ok((kind, r)),
            _ => Err(DecodeError::BadTag { what: "ranged composite payload kind", tag }),
        },
    }
}

#[verifier::opaque]
pub open spec fn parse_ranged_init(s: Seq<u8>) -> Parsed<RangedInitV> {
    match parse_u8(s) {
        Err(e) => Err(e),
        Ok((0u8, r)) => match parse_scalar(r) {
            Err(e) => Err(e),
            Ok((v, r)) => Ok((RangedInitV::Scalar(v), r)),
        },
        Ok((1u8, r)) => match parse_composite_payload_kind(r) {
            Err(e) => Err(e),
            Ok((k, r)) => Ok((RangedInitV::Composite(k), r)),
        },
        Ok((tag, _)) => Err(DecodeError::BadTag { what: "ranged create payload", tag }),
    }
}

#[verifier::opaque]
pub open spec fn parse_acl_subject(s: Seq<u8>) -> Parsed<AclSubjectV> {
    match parse_u8(s) {
        Err(e) => Err(e),
        Ok((0u8, r)) => match parse_client(r) {
            Err(e) => Err(e),
            Ok((id, r)) => Ok((AclSubjectV::Actor(id), r)),
        },
        Ok((1u8, r)) => match parse_bytes(r) {
            Err(e) => Err(e),
            Ok((g, r)) => Ok((AclSubjectV::Group(g), r)),
        },
        Ok((2u8, r)) => Ok((AclSubjectV::Authenticated, r)),
        Ok((3u8, r)) => Ok((AclSubjectV::Anonymous, r)),
        Ok((4u8, r)) => Ok((AclSubjectV::Anyone, r)),
        Ok((tag, _)) => Err(DecodeError::BadTag { what: "acl subject", tag }),
    }
}

pub open spec fn parse_capability(s: Seq<u8>) -> Parsed<Capability> {
    match parse_u8(s) {
        Err(e) => Err(e),
        Ok((0u8, r)) => Ok((Capability::Read, r)),
        Ok((1u8, r)) => Ok((Capability::Write, r)),
        Ok((2u8, r)) => Ok((Capability::PublishAwareness, r)),
        Ok((3u8, r)) => Ok((Capability::Own, r)),
        Ok((tag, _)) => Err(DecodeError::BadTag { what: "acl capability", tag }),
    }
}

#[verifier::opaque]
pub open spec fn parse_acl_grant(s: Seq<u8>) -> Parsed<AclGrantV> {
    match parse_u8(s) {
        Err(e) => Err(e),
        Ok((0u8, r)) => match parse_capability(r) {
            Err(e) => Err(e),
            Ok((c, r)) => Ok((AclGrantV::Capability(c), r)),
        },
        Ok((1u8, r)) => match parse_bytes(r) {
            Err(e) => Err(e),
            Ok((n, r)) => Ok((AclGrantV::Role(n), r)),
        },
        Ok((tag, _)) => Err(DecodeError::BadTag { what: "acl grant", tag }),
    }
}

#[verifier::opaque]
pub open spec fn parse_acl_effect(s: Seq<u8>) -> Parsed<AclEffect> {
    match parse_u8(s) {
        Err(e) => Err(e),
        Ok((0u8, r)) => Ok((AclEffect::Allow, r)),
        Ok((1u8, r)) => Ok((AclEffect::Deny, r)),
        Ok((tag, _)) => Err(DecodeError::BadTag { what: "acl effect", tag }),
    }
}

pub open spec fn parse_stamps(s: Seq<u8>, n: nat) -> Parsed<Seq<Stamp>>
    decreases n,
{
    if n == 0 {
        Ok((Seq::empty(), s))
    } else {
        match parse_stamp(s) {
            Err(e) => Err(e),
            Ok((x, r)) => match parse_stamps(r, (n - 1) as nat) {
                Err(e) => Err(e),
                Ok((xs, r)) => Ok((seq![x] + xs, r)),
            },
        }
    }
}

/// A key then a scalar.
pub open spec fn parse_key_scalar(s: Seq<u8>) -> Parsed<(Seq<u8>, ScalarV)> {
    match parse_bytes(s) {
        Err(e) => Err(e),
        Ok((key, r)) => match parse_scalar(r) {
            Err(e) => Err(e),
            Ok((value, r)) => Ok(((key, value), r)),
        },
    }
}

/// A key then a four-byte amount.
pub open spec fn parse_key_amount(s: Seq<u8>) -> Parsed<(Seq<u8>, u32)> {
    match parse_bytes(s) {
        Err(e) => Err(e),
        Ok((key, r)) => match parse_u32(r) {
            Err(e) => Err(e),
            Ok((amount, r)) => Ok(((key, amount), r)),
        },
    }
}

#[verifier::opaque]
pub open spec fn parse_opkind(s: Seq<u8>) -> Parsed<OpKindV> {
    match parse_u8(s) {
        Err(e) => Err(e),
        Ok((tag, r)) => parse_opkind_body(tag, r),
    }
}

/// The fields of the op kind that `tag` names.
pub open spec fn parse_opkind_body(tag: u8, s: Seq<u8>) -> Parsed<OpKindV> {
    if tag == 0 {
        match parse_key_scalar(s) {
            Err(e) => Err(e),
            Ok(((key, value), r)) => Ok((OpKindV::RegisterSet { key, value }, r)),
        }
    } else if tag == 1 {
        match parse_key_amount(s) {
            Err(e) => Err(e),
            Ok(((key, amount), r)) => Ok((OpKindV::CounterInc { key, amount }, r)),
        }
    } else if tag == 2 {
        match parse_key_amount(s) {
            Err(e) => Err(e),
            Ok(((key, amount), r)) => Ok((OpKindV::CounterDec { key, amount }, r)),
        }
    } else if tag == 3 {
        match parse_key_scalar(s) {
            Err(e) => Err(e),
            Ok(((key, value), r)) => Ok((OpKindV::MapSet { key, value }, r)),
        }
    } else if tag == 4 {
        match parse_bytes(s) {
            Err(e) => Err(e),
            Ok((key, r)) => Ok((OpKindV::MapDelete { key }, r)),
        }
    } else if tag == 5 {
        match parse_bytes(s) {
            Err(e) => Err(e),
            Ok((key, r)) => Ok((OpKindV::MapCreate { key }, r)),
        }
    } else if tag == 6 {
        match parse_bytes(s) {
            Err(e) => Err(e),
            Ok((key, r)) => Ok((OpKindV::ListCreate { key }, r)),
        }
    } else if tag == 7 {
        match parse_scalar(s) {
            Err(e) => Err(e),
            Ok((value, r)) => match parse_anchor(r) {
                Err(e) => Err(e),
                Ok((anchor, r)) => Ok((OpKindV::ListInsert { value, anchor }, r)),
            },
        }
    } else if tag == 8 {
        match parse_stamp(s) {
            Err(e) => Err(e),
            Ok((id, r)) => Ok((OpKindV::ListDelete { id }, r)),
        }
    } else if tag == 9 {
        match parse_bytes(s) {
            Err(e) => Err(e),
            Ok((key, r)) => Ok((OpKindV::TextCreate { key }, r)),
        }
    } else if tag == 10 {
        match parse_text(s) {
            Err(e) => Err(e),
            Ok((s, r)) => match parse_anchor(r) {
                Err(e) => Err(e),
                Ok((anchor, r)) => Ok((OpKindV::TextInsert { s, anchor }, r)),
            },
        }
    } else if tag == 11 {
        match parse_u32(s) {
            Err(e) => Err(e),
            Ok((n, r)) => match parse_stamps(r, n as nat) {
                Err(e) => Err(e),
                Ok((ids, r)) => Ok((OpKindV::TextDelete { ids }, r)),
            },
        }
    } else if tag == 12 {
        match parse_bytes(s) {
            Err(e) => Err(e),
            Ok((key, r)) => match parse_bytes(r) {
                Err(e) => Err(e),
                Ok((tag, r)) => Ok((OpKindV::XmlElementCreate { key, tag }, r)),
            },
        }
    } else if tag == 13 {
        match parse_bytes(s) {
            Err(e) => Err(e),
            Ok((key, r)) => Ok((OpKindV::XmlFragmentCreate { key }, r)),
        }
    } else if tag == 14 {
        match parse_opt_bytes_as(s, "xml child tag present-flag") {
            Err(e) => Err(e),
            Ok((tag, r)) => match parse_anchor(r) {
                Err(e) => Err(e),
                Ok((anchor, r)) => Ok((OpKindV::XmlInsertChild { tag, anchor }, r)),
            },
        }
    } else if tag == 15 {
        match parse_element_id(s) {
            Err(e) => Err(e),
            Ok((node, r)) => match parse_anchor(r) {
                Err(e) => Err(e),
                Ok((anchor, r)) => Ok((OpKindV::XmlMove { node, anchor }, r)),
            },
        }
    } else if tag == 16 {
        parse_ranged_create(s)
    } else if tag == 17 {
        match parse_element_id(s) {
            Err(e) => Err(e),
            Ok((id, r)) => match parse_scalar(r) {
                Err(e) => Err(e),
                Ok((payload, r)) => Ok((OpKindV::RangedSetPayload { id, payload }, r)),
            },
        }
    } else if tag == 18 {
        match parse_element_id(s) {
            Err(e) => Err(e),
            Ok((id, r)) => Ok((OpKindV::RangedDelete { id }, r)),
        }
    } else if tag == 19 {
        parse_acl_grant_op(s)
    } else if tag == 20 {
        match parse_element_id(s) {
            Err(e) => Err(e),
            Ok((id, r)) => Ok((OpKindV::AclRevoke { id }, r)),
        }
    } else {
        Err(DecodeError::BadTag { what: "opkind", tag })
    }
}

pub open spec fn parse_ranged_create(s: Seq<u8>) -> Parsed<OpKindV> {
    match parse_range_anchor(s) {
        Err(e) => Err(e),
        Ok((start, r)) => match parse_range_anchor(r) {
            Err(e) => Err(e),
            Ok((end, r)) => match parse_ranged_init(r) {
                Err(e) => Err(e),
                Ok((payload, r)) => match parse_opt_bytes(r) {
                    Err(e) => Err(e),
                    Ok((name, r)) => Ok((OpKindV::RangedCreate { start, end, payload, name }, r)),
                },
            },
        },
    }
}

pub open spec fn parse_acl_grant_op(s: Seq<u8>) -> Parsed<OpKindV> {
    match parse_acl_subject(s) {
        Err(e) => Err(e),
        Ok((subject, r)) => match parse_acl_grant(r) {
            Err(e) => Err(e),
            Ok((grant, r)) => match parse_acl_effect(r) {
                Err(e) => Err(e),
                Ok((effect, r)) => match parse_bytes(r) {
                    Err(e) => Err(e),
                    Ok((path, r)) => match parse_client(r) {
                        Err(e) => Err(e),
                        Ok((grantor, r)) => Ok(
                            (OpKindV::AclGrant { subject, grant, effect, path, grantor }, r),
                        ),
                    },
                },
            },
        },
    }
}

/// Reads a group tag. A group has at least one member and at most [`MAX_TX_MEMBERS`]: a
/// member of any other would wait for a completion that no arrival brings.
#[verifier::opaque]
pub open spec fn parse_tx(s: Seq<u8>) -> Parsed<Option<Tx>> {
    match parse_u8(s) {
        Err(e) => Err(e),
        Ok((0u8, r)) => Ok((None, r)),
        Ok((1u8, r)) => match parse_u64(r) {
            Err(e) => Err(e),
            Ok((id, r)) => match parse_u32(r) {
                Err(e) => Err(e),
                Ok((count, r)) => if 1 <= count <= MAX_TX_MEMBERS {
                    Ok((Some(Tx { id: TxId(id), count }), r))
                } else {
                    Err(DecodeError::BadTag { what: "tx: group size", tag: 0 })
                },
            },
        },
        Ok((tag, _)) => Err(DecodeError::BadTag { what: "tx", tag }),
    }
}

#[verifier::opaque]
pub open spec fn parse_op(s: Seq<u8>) -> Parsed<OpV> {
    match parse_client(s) {
        Err(e) => Err(e),
        Ok((client, r)) => match parse_u64(r) {
            Err(e) => Err(e),
            Ok((seq, r)) => match parse_stamp(r) {
                Err(e) => Err(e),
                Ok((stamp, r)) => match parse_element_id(r) {
                    Err(e) => Err(e),
                    Ok((target, r)) => match parse_opkind(r) {
                        Err(e) => Err(e),
                        Ok((kind, r)) => match parse_tx(r) {
                            Err(e) => Err(e),
                            Ok((tx, r)) => Ok(
                                (
                                    OpV {
                                        id: OpId { client, seq },
                                        stamp,
                                        target,
                                        kind,
                                        tx,
                                        zone: None,
                                    },
                                    r,
                                ),
                            ),
                        },
                    },
                },
            },
        },
    }
}

/// A whole byte string read as one value: trailing bytes are an error.
pub open spec fn exactly<T>(p: Parsed<T>) -> Result<T, DecodeError> {
    match p {
        Err(e) => Err(e),
        Ok((v, r)) => if r.len() == 0 {
            Ok(v)
        } else {
            Err(DecodeError::TrailingBytes)
        },
    }
}

/// A byte string read as an op log.
pub open spec fn parse_ops(s: Seq<u8>) -> Result<Seq<OpV>, DecodeError>
    decreases s.len(),
{
    if s.len() == 0 {
        Ok(Seq::empty())
    } else {
        match parse_u32(s) {
            Err(e) => Err(e),
            Ok((len, r)) => match parse_take(r, len as nat) {
                Err(e) => Err(e),
                Ok((frame, r)) => match exactly(parse_op(frame)) {
                    Err(e) => Err(e),
                    Ok(op) => match parse_ops(r) {
                        Err(e) => Err(e),
                        Ok(ops) => Ok(seq![op] + ops),
                    },
                },
            },
        }
    }
}

} // verus!
