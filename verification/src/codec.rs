//! Binary codec: the stable encoding for ops, on the wire and on disk.
//!
//! An op log is the durable form of a document: a length-framed sequence of encoded
//! ops that replays back to the same state. Encoding is deterministic (one op, one
//! byte string) and little-endian. Decoding is total: malformed input yields a
//! [`DecodeError`], never a panic.

use crate::acl::{AclEffect, AclGrant, AclSubject, Capability};
use crate::anchor::{Anchor, RelativePosition, Side};
use crate::bytes::{opt_bytes, text_from_utf8};
use crate::clientid::ClientId;
use crate::elementid::{ElementId, ElementKind};
use crate::format::{
    acl_grant_fits, acl_subject_fits, bits_i64, enc_acl_effect, enc_acl_grant, enc_acl_subject,
    enc_anchor, enc_bytes, enc_capability, enc_i64, enc_op, enc_opkind, enc_ops, enc_opt_bytes,
    enc_range_anchor, enc_ranged_init, enc_rel_position, enc_scalar, enc_side, enc_stamp,
    enc_stamps, enc_text, enc_tx, enc_u32, enc_u64, enc_u8, exactly, fits_u32, lemma_concat_assoc,
    op_fits, opkind_fits, ops_fit, opt_fits, parse_acl_effect, parse_acl_grant, parse_acl_subject,
    parse_anchor, parse_bytes, parse_capability, parse_client, parse_composite_payload_kind,
    parse_element_id, parse_i64, parse_op, parse_opkind, parse_ops, parse_opt_bytes,
    parse_opt_bytes_as, parse_range_anchor, parse_ranged_init, parse_rel_position, parse_scalar,
    parse_stamp, parse_stamps, parse_take, parse_text, parse_tx, parse_u32, parse_u64, parse_u8,
    ranged_init_fits, scalar_fits, Parsed,
};
pub use crate::format::DecodeError;
use crate::op::{ops_view, Op, OpId, OpKind, OpV, Tx, TxId, MAX_TX_MEMBERS};
use crate::ranged::{is_composite_payload_kind, RangeAnchor, RangedInit};
use crate::scalar::{BlobRef, Scalar};
use crate::stamp::Stamp;
use crate::wire::{get_le, lemma_be_value_of_bytes, lemma_le_bytes_of_value, lemma_pow256, put_le};
use vstd::prelude::*;
use vstd::slice::{slice_subrange, slice_to_vec};

verus! {

/// Encode one op to its byte string.
pub fn encode_op(op: &Op) -> (out: Vec<u8>)
    requires
        op_fits(op@),
    ensures
        out@ == enc_op(op@),
{
    let mut out: Vec<u8> = Vec::new();
    put_op(&mut out, op);
    proof {
        assert(Seq::<u8>::empty() + enc_op(op@) =~= enc_op(op@));
    }
    out
}

/// Decode exactly one op; trailing bytes are an error.
pub fn decode_op(bytes: &[u8]) -> (r: Result<Op, DecodeError>)
    ensures
        match exactly(parse_op(bytes@)) {
            Ok(op) => r matches Ok(got) && got@ == op,
            Err(e) => r matches Err(got) && got == e,
        },
{
    let mut cur = Cursor::new(bytes);
    let op = cur.op()?;
    if !cur.at_end() {
        return Err(DecodeError::TrailingBytes);
    }
    Ok(op)
}

/// Encode an op log: each op length-framed so the stream is self-delimiting.
pub fn encode_ops(ops: &[Op]) -> (out: Vec<u8>)
    requires
        ops_fit(ops_view(ops@)),
    ensures
        out@ == enc_ops(ops_view(ops@)),
{
    broadcast use lemma_concat_assoc;

    let mut out: Vec<u8> = Vec::new();
    let mut i: usize = 0;
    let ghost all = ops_view(ops@);
    proof {
        assert(all.skip(0) =~= all);
        assert(Seq::<u8>::empty() + enc_ops(all) =~= enc_ops(all));
    }
    while i < ops.len()
        invariant
            i <= ops@.len(),
            all == ops_view(ops@),
            ops_fit(all),
            out@ + enc_ops(all.skip(i as int)) == enc_ops(all),
        decreases ops@.len() - i,
    {
        proof {
            assert(op_fits(all[i as int]));
            assert(all.skip(i as int)[0] == all[i as int]);
            assert(all.skip(i as int).skip(1) =~= all.skip(i + 1));
        }
        let body = encode_op(&ops[i]);
        put_bytes(&mut out, body.as_slice());
        i += 1;
    }
    proof {
        assert(all.skip(i as int) =~= Seq::empty());
        assert(out@ + enc_ops(Seq::empty()) =~= out@);
    }
    out
}

/// Decode a length-framed op log back into ops, in order.
pub fn decode_ops(bytes: &[u8]) -> (r: Result<Vec<Op>, DecodeError>)
    ensures
        match parse_ops(bytes@) {
            Ok(ops) => r matches Ok(got) && ops_view(got@) == ops,
            Err(e) => r matches Err(got) && got == e,
        },
{
    let mut cur = Cursor::new(bytes);
    let mut ops: Vec<Op> = Vec::new();
    proof {
        assert(ops_view(ops@) =~= Seq::empty());
        if let Ok(rest) = parse_ops(bytes@) {
            assert(Seq::<OpV>::empty() + rest =~= rest);
        }
    }
    while !cur.at_end()
        invariant
            match parse_ops(cur.rest@) {
                Ok(rest) => parse_ops(bytes@) == Ok::<Seq<OpV>, DecodeError>(
                    ops_view(ops@) + rest,
                ),
                Err(e) => parse_ops(bytes@) == Err::<Seq<OpV>, DecodeError>(e),
            },
        decreases cur.rest@.len(),
    {
        let ghost done = ops_view(ops@);
        let len: u32 = cur.u32()?;
        let frame = cur.take(len as usize)?;
        let op = decode_op(frame)?;
        ops.push(op);
        proof {
            assert(ops_view(ops@) =~= done.push(op@));
            if let Ok(rest) = parse_ops(cur.rest@) {
                assert(done + (seq![op@] + rest) =~= ops_view(ops@) + rest);
            }
        }
    }
    proof {
        assert(ops_view(ops@) + Seq::<OpV>::empty() =~= ops_view(ops@));
    }
    Ok(ops)
}

// --- encode ---

pub(crate) fn put_u8(out: &mut Vec<u8>, v: u8)
    ensures
        final(out)@ == old(out)@ + enc_u8(v),
{
    out.push(v);
    proof {
        assert(out@ =~= old(out)@ + enc_u8(v));
    }
}

pub(crate) fn put_u32(out: &mut Vec<u8>, v: u32)
    ensures
        final(out)@ == old(out)@ + enc_u32(v),
{
    put_le(out, v as u64, 4);
}

pub(crate) fn put_u64(out: &mut Vec<u8>, v: u64)
    ensures
        final(out)@ == old(out)@ + enc_u64(v),
{
    put_le(out, v, 8);
}

pub(crate) fn put_i64(out: &mut Vec<u8>, v: i64)
    ensures
        final(out)@ == old(out)@ + enc_i64(v),
{
    let n: u64 = if v >= 0 {
        v as u64
    } else {
        u64::MAX - ((-(v + 1)) as u64)
    };
    put_u64(out, n);
}

/// A length as a u32.
pub(crate) fn len_u32(n: usize) -> (r: u32)
    requires
        fits_u32(n as nat),
    ensures
        r == n as u32,
        r as nat == n as nat,
{
    n as u32
}

/// Append raw bytes.
pub(crate) fn put_raw(out: &mut Vec<u8>, b: &[u8])
    ensures
        final(out)@ == old(out)@ + b@,
{
    out.extend_from_slice(b);
    proof {
        assert(out@ =~= old(out)@ + b@);
    }
}

pub(crate) fn put_client(out: &mut Vec<u8>, id: &ClientId)
    ensures
        final(out)@ == old(out)@ + id.bytes(),
{
    put_raw(out, &id.as_bytes());
}

pub(crate) fn put_element_id(out: &mut Vec<u8>, id: &ElementId)
    ensures
        final(out)@ == old(out)@ + id.bytes(),
{
    put_raw(out, &id.as_bytes());
}

/// An optional byte string: a present-flag byte, then the bytes when there are any.
pub(crate) fn put_opt_bytes(out: &mut Vec<u8>, b: &Option<Vec<u8>>)
    requires
        opt_fits(opt_bytes(*b)),
    ensures
        final(out)@ == old(out)@ + enc_opt_bytes(opt_bytes(*b)),
{
    broadcast use lemma_concat_assoc;

    reveal(enc_opt_bytes);
    match b {
        None => put_u8(out, 0),
        Some(b) => {
            put_u8(out, 1);
            put_bytes(out, b.as_slice());
        },
    }
}

pub(crate) fn put_bytes(out: &mut Vec<u8>, b: &[u8])
    requires
        fits_u32(b@.len()),
    ensures
        final(out)@ == old(out)@ + enc_bytes(b@),
{
    broadcast use lemma_concat_assoc;

    reveal(enc_bytes);
    put_u32(out, len_u32(b.len()));
    put_raw(out, b);
}

pub(crate) fn put_text(out: &mut Vec<u8>, s: &str)
    requires
        fits_u32(vstd::utf8::encode_utf8(s@).len()),
    ensures
        final(out)@ == old(out)@ + enc_text(s@),
{
    reveal(enc_text);
    put_bytes(out, s.as_bytes());
}

pub(crate) fn put_stamp(out: &mut Vec<u8>, s: &Stamp)
    ensures
        final(out)@ == old(out)@ + enc_stamp(*s),
{
    broadcast use lemma_concat_assoc;

    reveal(enc_stamp);
    put_u64(out, s.lamport);
    put_client(out, &s.client);
}

pub(crate) fn put_scalar(out: &mut Vec<u8>, s: &Scalar)
    requires
        scalar_fits(s@),
    ensures
        final(out)@ == old(out)@ + enc_scalar(s@),
{
    broadcast use lemma_concat_assoc;

    reveal(enc_scalar);
    match s {
        Scalar::Null => put_u8(out, 0),
        Scalar::Bool(b) => {
            put_u8(out, 1);
            put_u8(
                out,
                if *b {
                    1
                } else {
                    0
                },
            );
        },
        Scalar::Int(n) => {
            put_u8(out, 2);
            put_i64(out, *n);
        },
        Scalar::Bytes(b) => {
            put_u8(out, 3);
            put_bytes(out, b.as_slice());
        },
        Scalar::BlobRef(r) => {
            put_u8(out, 4);
            put_raw(out, &r.id);
            put_text(out, r.mime.as_str());
            put_u64(out, r.size);
            put_opt_bytes(out, &r.inline);
        },
        Scalar::ElementRef(id) => {
            put_u8(out, 5);
            put_element_id(out, id);
        },
    }
}

pub(crate) fn put_anchor(out: &mut Vec<u8>, a: &Anchor)
    ensures
        final(out)@ == old(out)@ + enc_anchor(*a),
{
    broadcast use lemma_concat_assoc;

    reveal(enc_anchor);
    match &a.parent {
        None => put_u8(out, 0),
        Some(p) => {
            put_u8(out, 1);
            put_stamp(out, p);
        },
    }
    put_u8(out, side_tag(a.side));
}

fn side_tag(side: Side) -> (tag: u8)
    ensures
        enc_side(side) == enc_u8(tag),
{
    match side {
        Side::Left => 0,
        Side::Right => 1,
    }
}

/// A `RelativePosition`, tag-prefixed and self-delimiting: a bare boundary, or an
/// item edge carrying its bound stamp.
pub(crate) fn put_rel_position(out: &mut Vec<u8>, pos: &RelativePosition)
    ensures
        final(out)@ == old(out)@ + enc_rel_position(*pos),
{
    broadcast use lemma_concat_assoc;

    match pos {
        RelativePosition::Start => put_u8(out, 0),
        RelativePosition::End => put_u8(out, 1),
        RelativePosition::Before(s) => {
            put_u8(out, 2);
            put_stamp(out, s);
        },
        RelativePosition::After(s) => {
            put_u8(out, 3);
            put_stamp(out, s);
        },
    }
}

/// A range endpoint: the sequence id it lives in, then its position within.
pub(crate) fn put_range_anchor(out: &mut Vec<u8>, a: &RangeAnchor)
    ensures
        final(out)@ == old(out)@ + enc_range_anchor(*a),
{
    broadcast use lemma_concat_assoc;

    reveal(enc_range_anchor);
    put_element_id(out, &a.seq);
    put_rel_position(out, &a.pos);
}

/// A range's create payload: tag `0` a leaf scalar, tag `1` a container kind.
pub(crate) fn put_ranged_init(out: &mut Vec<u8>, init: &RangedInit)
    requires
        ranged_init_fits(init@),
    ensures
        final(out)@ == old(out)@ + enc_ranged_init(init@),
{
    broadcast use lemma_concat_assoc;

    reveal(enc_ranged_init);
    match init {
        RangedInit::Scalar(value) => {
            put_u8(out, 0);
            put_scalar(out, value);
        },
        RangedInit::Composite(kind) => {
            put_u8(out, 1);
            put_u8(out, kind.tag());
        },
    }
}

/// An ACL subject, tag-prefixed: the actor and the group carry their data, the three
/// well-known classes are bare.
pub(crate) fn put_acl_subject(out: &mut Vec<u8>, subject: &AclSubject)
    requires
        acl_subject_fits(subject@),
    ensures
        final(out)@ == old(out)@ + enc_acl_subject(subject@),
{
    broadcast use lemma_concat_assoc;

    reveal(enc_acl_subject);
    match subject {
        AclSubject::Actor(id) => {
            put_u8(out, 0);
            put_client(out, id);
        },
        AclSubject::Group(name) => {
            put_u8(out, 1);
            put_bytes(out, name.as_slice());
        },
        AclSubject::Authenticated => put_u8(out, 2),
        AclSubject::Anonymous => put_u8(out, 3),
        AclSubject::Anyone => put_u8(out, 4),
    }
}

/// An ACL grant: tag `0` a capability (its own tag byte), tag `1` a role name.
pub(crate) fn put_acl_grant(out: &mut Vec<u8>, grant: &AclGrant)
    requires
        acl_grant_fits(grant@),
    ensures
        final(out)@ == old(out)@ + enc_acl_grant(grant@),
{
    broadcast use lemma_concat_assoc;

    reveal(enc_acl_grant);
    match grant {
        AclGrant::Capability(cap) => {
            put_u8(out, 0);
            put_u8(out, capability_tag(*cap));
        },
        AclGrant::Role(name) => {
            put_u8(out, 1);
            put_bytes(out, name.as_slice());
        },
    }
}

fn capability_tag(cap: Capability) -> (tag: u8)
    ensures
        enc_capability(cap) == enc_u8(tag),
{
    match cap {
        Capability::Read => 0,
        Capability::Write => 1,
        Capability::PublishAwareness => 2,
        Capability::Own => 3,
    }
}

pub(crate) fn put_acl_effect(out: &mut Vec<u8>, effect: AclEffect)
    ensures
        final(out)@ == old(out)@ + enc_acl_effect(effect),
{
    reveal(enc_acl_effect);
    put_u8(
        out,
        match effect {
            AclEffect::Allow => 0,
            AclEffect::Deny => 1,
        },
    );
}

/// Stamps end to end, with no count.
pub(crate) fn put_stamps(out: &mut Vec<u8>, ids: &[Stamp])
    ensures
        final(out)@ == old(out)@ + enc_stamps(ids@),
{
    broadcast use lemma_concat_assoc;

    let mut i: usize = 0;
    let ghost start = out@;
    proof {
        assert(ids@.skip(0) =~= ids@);
    }
    while i < ids.len()
        invariant
            i <= ids@.len(),
            out@ + enc_stamps(ids@.skip(i as int)) == start + enc_stamps(ids@),
        decreases ids@.len() - i,
    {
        proof {
            assert(ids@.skip(i as int).skip(1) =~= ids@.skip(i + 1));
        }
        put_stamp(out, &ids[i]);
        i += 1;
    }
    proof {
        assert(ids@.skip(i as int) =~= Seq::empty());
        assert(out@ + enc_stamps(Seq::empty()) =~= out@);
    }
}

pub(crate) fn put_opkind(out: &mut Vec<u8>, kind: &OpKind)
    requires
        opkind_fits(kind@),
    ensures
        final(out)@ == old(out)@ + enc_opkind(kind@),
{
    broadcast use lemma_concat_assoc;

    reveal(enc_opkind);
    match kind {
        OpKind::RegisterSet { key, value } => {
            put_u8(out, 0);
            put_bytes(out, key.as_slice());
            put_scalar(out, value);
        },
        OpKind::CounterInc { key, amount } => {
            put_u8(out, 1);
            put_bytes(out, key.as_slice());
            put_u32(out, *amount);
        },
        OpKind::CounterDec { key, amount } => {
            put_u8(out, 2);
            put_bytes(out, key.as_slice());
            put_u32(out, *amount);
        },
        OpKind::MapSet { key, value } => {
            put_u8(out, 3);
            put_bytes(out, key.as_slice());
            put_scalar(out, value);
        },
        OpKind::MapDelete { key } => {
            put_u8(out, 4);
            put_bytes(out, key.as_slice());
        },
        OpKind::MapCreate { key } => {
            put_u8(out, 5);
            put_bytes(out, key.as_slice());
        },
        OpKind::ListCreate { key } => {
            put_u8(out, 6);
            put_bytes(out, key.as_slice());
        },
        OpKind::ListInsert { value, anchor } => {
            put_u8(out, 7);
            put_scalar(out, value);
            put_anchor(out, anchor);
        },
        OpKind::ListDelete { id } => {
            put_u8(out, 8);
            put_stamp(out, id);
        },
        OpKind::TextCreate { key } => {
            put_u8(out, 9);
            put_bytes(out, key.as_slice());
        },
        OpKind::TextInsert { s, anchor } => {
            put_u8(out, 10);
            put_text(out, s.as_str());
            put_anchor(out, anchor);
        },
        OpKind::TextDelete { ids } => {
            put_u8(out, 11);
            put_u32(out, len_u32(ids.len()));
            put_stamps(out, ids.as_slice());
        },
        OpKind::XmlElementCreate { key, tag } => {
            put_u8(out, 12);
            put_bytes(out, key.as_slice());
            put_bytes(out, tag.as_slice());
        },
        OpKind::XmlFragmentCreate { key } => {
            put_u8(out, 13);
            put_bytes(out, key.as_slice());
        },
        OpKind::XmlInsertChild { tag, anchor } => {
            put_u8(out, 14);
            put_opt_bytes(out, tag);
            put_anchor(out, anchor);
        },
        OpKind::XmlMove { node, anchor } => {
            put_u8(out, 15);
            put_element_id(out, node);
            put_anchor(out, anchor);
        },
        OpKind::XmlReveal { .. } => {},
        OpKind::RangedCreate { start, end, payload, name } => {
            put_u8(out, 16);
            put_range_anchor(out, start);
            put_range_anchor(out, end);
            put_ranged_init(out, payload);
            put_opt_bytes(out, name);
        },
        OpKind::RangedSetPayload { id, payload } => {
            put_u8(out, 17);
            put_element_id(out, id);
            put_scalar(out, payload);
        },
        OpKind::RangedDelete { id } => {
            put_u8(out, 18);
            put_element_id(out, id);
        },
        OpKind::AclGrant { subject, grant, effect, path, grantor } => {
            put_u8(out, 19);
            put_acl_subject(out, subject);
            put_acl_grant(out, grant);
            put_acl_effect(out, *effect);
            put_bytes(out, path.as_slice());
            put_client(out, grantor);
        },
        OpKind::AclRevoke { id } => {
            put_u8(out, 20);
            put_element_id(out, id);
        },
    }
}

pub(crate) fn put_op(out: &mut Vec<u8>, op: &Op)
    requires
        op_fits(op@),
    ensures
        final(out)@ == old(out)@ + enc_op(op@),
{
    broadcast use lemma_concat_assoc;

    reveal(enc_op);
    reveal(enc_tx);
    put_client(out, &op.id.client);
    put_u64(out, op.id.seq);
    put_stamp(out, &op.stamp);
    put_element_id(out, &op.target);
    put_opkind(out, &op.kind);
    match &op.tx {
        None => put_u8(out, 0),
        Some(tx) => {
            put_u8(out, 1);
            put_u64(out, tx.id.0);
            put_u32(out, tx.count);
        },
    }
}

// --- decode ---

/// What a reader returned is what the format says of the bytes ahead of it, and it
/// left the bytes the format leaves.
pub open spec fn reads<T>(got: Result<T, DecodeError>, p: Parsed<T>, rest: Seq<u8>) -> bool {
    match p {
        Ok((v, r)) => got == Ok::<T, DecodeError>(v) && rest == r,
        Err(e) => got == Err::<T, DecodeError>(e),
    }
}

/// As [`reads`], for a value compared by its view.
pub open spec fn reads_view<T: View>(
    got: Result<T, DecodeError>,
    p: Parsed<T::V>,
    rest: Seq<u8>,
) -> bool {
    match p {
        Ok((v, r)) => got is Ok && got->Ok_0@ == v && rest == r,
        Err(e) => got == Err::<T, DecodeError>(e),
    }
}

/// As [`reads`], for an optional byte string.
pub open spec fn reads_opt(
    got: Result<Option<Vec<u8>>, DecodeError>,
    p: Parsed<Option<Seq<u8>>>,
    rest: Seq<u8>,
) -> bool {
    match p {
        Ok((v, r)) => got is Ok && opt_bytes(got->Ok_0) == v && rest == r,
        Err(e) => got == Err::<Option<Vec<u8>>, DecodeError>(e),
    }
}

/// A reader over the bytes not yet consumed.
pub struct Cursor<'a> {
    pub rest: &'a [u8],
}

impl<'a> Cursor<'a> {
    pub(crate) fn new(buf: &'a [u8]) -> (cur: Self)
        ensures
            cur.rest@ == buf@,
    {
        Cursor { rest: buf }
    }

    /// Whether every byte has been consumed.
    pub(crate) fn at_end(&self) -> (b: bool)
        ensures
            b == (self.rest@.len() == 0),
    {
        self.rest.len() == 0
    }

    pub(crate) fn take(&mut self, n: usize) -> (r: Result<&'a [u8], DecodeError>)
        ensures
            match parse_take(old(self).rest@, n as nat) {
                Ok((b, rest)) => r is Ok && r->Ok_0@ == b && final(self).rest@ == rest,
                Err(e) => r == Err::<&'a [u8], DecodeError>(e) && final(self).rest@ == old(
                    self,
                ).rest@,
            },
    {
        let rest = self.rest;
        if n > rest.len() {
            return Err(DecodeError::UnexpectedEof);
        }
        self.rest = slice_subrange(rest, n, rest.len());
        Ok(slice_subrange(rest, 0, n))
    }

    pub(crate) fn u8(&mut self) -> (r: Result<u8, DecodeError>)
        ensures
            reads(r, parse_u8(old(self).rest@), final(self).rest@),
    {
        let b = self.take(1)?;
        Ok(b[0])
    }

    pub(crate) fn u32(&mut self) -> (r: Result<u32, DecodeError>)
        ensures
            reads(r, parse_u32(old(self).rest@), final(self).rest@),
    {
        let b = self.take(4)?;
        proof {
            lemma_le_bytes_of_value(b@);
            lemma_pow256(4);
        }
        Ok(get_le(b) as u32)
    }

    pub(crate) fn u64(&mut self) -> (r: Result<u64, DecodeError>)
        ensures
            reads(r, parse_u64(old(self).rest@), final(self).rest@),
    {
        let b = self.take(8)?;
        Ok(get_le(b))
    }

    pub(crate) fn i64(&mut self) -> (r: Result<i64, DecodeError>)
        ensures
            reads(r, parse_i64(old(self).rest@), final(self).rest@),
    {
        let n: u64 = self.u64()?;
        Ok(i64_of(n))
    }

    pub(crate) fn bytes(&mut self) -> (r: Result<Vec<u8>, DecodeError>)
        ensures
            reads_view(r, parse_bytes(old(self).rest@), final(self).rest@),
    {
        reveal(parse_bytes);
        let len: u32 = self.u32()?;
        Ok(slice_to_vec(self.take(len as usize)?))
    }

    /// An optional byte string written by [`put_opt_bytes`]; `what` names the flag in
    /// the error.
    pub(crate) fn opt_bytes_as(&mut self, what: &'static str) -> (r: Result<
        Option<Vec<u8>>,
        DecodeError,
    >)
        ensures
            reads_opt(r, parse_opt_bytes_as(old(self).rest@, what), final(self).rest@),
    {
        reveal(parse_opt_bytes_as);
        match self.u8()? {
            0 => Ok(None),
            1 => Ok(Some(self.bytes()?)),
            tag => Err(DecodeError::BadTag { what, tag }),
        }
    }

    pub(crate) fn opt_bytes(&mut self) -> (r: Result<Option<Vec<u8>>, DecodeError>)
        ensures
            reads_opt(r, parse_opt_bytes(old(self).rest@), final(self).rest@),
    {
        self.opt_bytes_as("optional bytes present-flag")
    }

    pub(crate) fn string(&mut self) -> (r: Result<String, DecodeError>)
        ensures
            reads_view(r, parse_text(old(self).rest@), final(self).rest@),
    {
        reveal(parse_text);
        reveal(parse_bytes);
        let len: u32 = self.u32()?;
        let raw = self.take(len as usize)?;
        match text_from_utf8(raw) {
            Some(s) => Ok(s),
            None => Err(DecodeError::BadUtf8),
        }
    }

    fn array16(&mut self) -> (r: Result<[u8; 16], DecodeError>)
        ensures
            reads_view(r, parse_take(old(self).rest@, 16), final(self).rest@),
    {
        let b = self.take(16)?;
        let mut a: [u8; 16] = [0u8;16];
        let mut i: usize = 0;
        while i < 16
            invariant
                b@.len() == 16,
                i <= 16,
                forall|j: int| 0 <= j < i ==> a@[j] == b@[j],
            decreases 16 - i,
        {
            a[i] = b[i];
            i += 1;
        }
        proof {
            assert(a@ =~= b@);
        }
        Ok(a)
    }

    pub(crate) fn client(&mut self) -> (r: Result<ClientId, DecodeError>)
        ensures
            reads(r, parse_client(old(self).rest@), final(self).rest@),
    {
        let a = self.array16()?;
        let id = ClientId::from_bytes(a);
        proof {
            lemma_pow256(16);
            lemma_be_value_of_bytes(id.bits as nat, 16);
        }
        Ok(id)
    }

    pub(crate) fn element_id(&mut self) -> (r: Result<ElementId, DecodeError>)
        ensures
            reads(r, parse_element_id(old(self).rest@), final(self).rest@),
    {
        let a = self.array16()?;
        Ok(ElementId::from_bytes(a))
    }

    pub(crate) fn stamp(&mut self) -> (r: Result<Stamp, DecodeError>)
        ensures
            reads(r, parse_stamp(old(self).rest@), final(self).rest@),
    {
        reveal(parse_stamp);
        let lamport: u64 = self.u64()?;
        let client = self.client()?;
        Ok(Stamp { lamport, client, offset: 0 })
    }

    pub(crate) fn scalar(&mut self) -> (r: Result<Scalar, DecodeError>)
        ensures
            reads_view(r, parse_scalar(old(self).rest@), final(self).rest@),
    {
        reveal(parse_scalar);
        match self.u8()? {
            0 => Ok(Scalar::Null),
            1 => match self.u8()? {
                0 => Ok(Scalar::Bool(false)),
                1 => Ok(Scalar::Bool(true)),
                tag => Err(DecodeError::BadTag { what: "scalar bool", tag }),
            },
            2 => Ok(Scalar::Int(self.i64()?)),
            3 => Ok(Scalar::Bytes(self.bytes()?)),
            4 => {
                let id = self.array16()?;
                let mime = self.string()?;
                let size: u64 = self.u64()?;
                let inline = self.opt_bytes_as("blob inline")?;
                Ok(Scalar::BlobRef(BlobRef { id, mime, size, inline }))
            },
            5 => Ok(Scalar::ElementRef(self.element_id()?)),
            tag => Err(DecodeError::BadTag { what: "scalar", tag }),
        }
    }

    pub(crate) fn anchor(&mut self) -> (r: Result<Anchor, DecodeError>)
        ensures
            reads(r, parse_anchor(old(self).rest@), final(self).rest@),
    {
        reveal(parse_anchor);
        let parent = match self.u8()? {
            0 => None,
            1 => Some(self.stamp()?),
            tag => return Err(DecodeError::BadTag { what: "anchor.parent", tag }),
        };
        let side = match self.u8()? {
            0 => Side::Left,
            1 => Side::Right,
            tag => return Err(DecodeError::BadTag { what: "side", tag }),
        };
        Ok(Anchor { parent, side })
    }

    pub(crate) fn rel_position(&mut self) -> (r: Result<RelativePosition, DecodeError>)
        ensures
            reads(r, parse_rel_position(old(self).rest@), final(self).rest@),
    {
        match self.u8()? {
            0 => Ok(RelativePosition::Start),
            1 => Ok(RelativePosition::End),
            2 => Ok(RelativePosition::Before(self.stamp()?)),
            3 => Ok(RelativePosition::After(self.stamp()?)),
            tag => Err(DecodeError::BadTag { what: "relative position", tag }),
        }
    }

    pub(crate) fn range_anchor(&mut self) -> (r: Result<RangeAnchor, DecodeError>)
        ensures
            reads(r, parse_range_anchor(old(self).rest@), final(self).rest@),
    {
        reveal(parse_range_anchor);
        let seq = self.element_id()?;
        let pos = self.rel_position()?;
        Ok(RangeAnchor { seq, pos })
    }

    fn ranged_init(&mut self) -> (r: Result<RangedInit, DecodeError>)
        ensures
            reads_view(r, parse_ranged_init(old(self).rest@), final(self).rest@),
    {
        reveal(parse_ranged_init);
        match self.u8()? {
            0 => Ok(RangedInit::Scalar(self.scalar()?)),
            1 => Ok(RangedInit::Composite(self.composite_payload_kind()?)),
            tag => Err(DecodeError::BadTag { what: "ranged create payload", tag }),
        }
    }

    /// Decode one range payload container kind, reporting the offending byte on an
    /// invalid one.
    pub(crate) fn composite_payload_kind(&mut self) -> (r: Result<ElementKind, DecodeError>)
        ensures
            reads(r, parse_composite_payload_kind(old(self).rest@), final(self).rest@),
    {
        let tag: u8 = self.u8()?;
        match ElementKind::from_tag(tag) {
            Some(kind) => {
                if is_composite_payload_kind(kind) {
                    return Ok(kind);
                }
            },
            None => {},
        }
        Err(DecodeError::BadTag { what: "ranged composite payload kind", tag })
    }

    pub(crate) fn acl_subject(&mut self) -> (r: Result<AclSubject, DecodeError>)
        ensures
            reads_view(r, parse_acl_subject(old(self).rest@), final(self).rest@),
    {
        reveal(parse_acl_subject);
        match self.u8()? {
            0 => Ok(AclSubject::Actor(self.client()?)),
            1 => Ok(AclSubject::Group(self.bytes()?)),
            2 => Ok(AclSubject::Authenticated),
            3 => Ok(AclSubject::Anonymous),
            4 => Ok(AclSubject::Anyone),
            tag => Err(DecodeError::BadTag { what: "acl subject", tag }),
        }
    }

    pub(crate) fn acl_grant(&mut self) -> (r: Result<AclGrant, DecodeError>)
        ensures
            reads_view(r, parse_acl_grant(old(self).rest@), final(self).rest@),
    {
        reveal(parse_acl_grant);
        match self.u8()? {
            0 => Ok(AclGrant::Capability(self.capability()?)),
            1 => Ok(AclGrant::Role(self.bytes()?)),
            tag => Err(DecodeError::BadTag { what: "acl grant", tag }),
        }
    }

    fn capability(&mut self) -> (r: Result<Capability, DecodeError>)
        ensures
            reads(r, parse_capability(old(self).rest@), final(self).rest@),
    {
        match self.u8()? {
            0 => Ok(Capability::Read),
            1 => Ok(Capability::Write),
            2 => Ok(Capability::PublishAwareness),
            3 => Ok(Capability::Own),
            tag => Err(DecodeError::BadTag { what: "acl capability", tag }),
        }
    }

    pub(crate) fn acl_effect(&mut self) -> (r: Result<AclEffect, DecodeError>)
        ensures
            reads(r, parse_acl_effect(old(self).rest@), final(self).rest@),
    {
        reveal(parse_acl_effect);
        match self.u8()? {
            0 => Ok(AclEffect::Allow),
            1 => Ok(AclEffect::Deny),
            tag => Err(DecodeError::BadTag { what: "acl effect", tag }),
        }
    }

    fn stamps(&mut self, n: u32) -> (r: Result<Vec<Stamp>, DecodeError>)
        ensures
            reads_view(r, parse_stamps(old(self).rest@, n as nat), final(self).rest@),
    {
        let ghost start = self.rest@;
        let mut ids: Vec<Stamp> = Vec::new();
        let mut i: u32 = 0;
        proof {
            if let Ok((rest, _)) = parse_stamps(start, n as nat) {
                assert(Seq::<Stamp>::empty() + rest =~= rest);
            }
        }
        while i < n
            invariant
                i <= n,
                start == old(self).rest@,
                match parse_stamps(self.rest@, (n - i) as nat) {
                    Ok((xs, r)) => parse_stamps(start, n as nat) == Ok::<
                        (Seq<Stamp>, Seq<u8>),
                        DecodeError,
                    >((ids@ + xs, r)),
                    Err(e) => parse_stamps(start, n as nat) == Err::<
                        (Seq<Stamp>, Seq<u8>),
                        DecodeError,
                    >(e),
                },
            decreases n - i,
        {
            let ghost done = ids@;
            let id = self.stamp()?;
            ids.push(id);
            i += 1;
            proof {
                if let Ok((xs, _)) = parse_stamps(self.rest@, (n - i) as nat) {
                    assert(done + (seq![id] + xs) =~= ids@ + xs);
                }
            }
        }
        proof {
            assert(ids@ + Seq::<Stamp>::empty() =~= ids@);
        }
        Ok(ids)
    }

    fn opkind(&mut self) -> (r: Result<OpKind, DecodeError>)
        ensures
            reads_view(r, parse_opkind(old(self).rest@), final(self).rest@),
    {
        reveal(parse_opkind);
        Ok(
            match self.u8()? {
                0 => OpKind::RegisterSet { key: self.bytes()?, value: self.scalar()? },
                1 => OpKind::CounterInc { key: self.bytes()?, amount: self.u32()? },
                2 => OpKind::CounterDec { key: self.bytes()?, amount: self.u32()? },
                3 => OpKind::MapSet { key: self.bytes()?, value: self.scalar()? },
                4 => OpKind::MapDelete { key: self.bytes()? },
                5 => OpKind::MapCreate { key: self.bytes()? },
                6 => OpKind::ListCreate { key: self.bytes()? },
                7 => OpKind::ListInsert { value: self.scalar()?, anchor: self.anchor()? },
                8 => OpKind::ListDelete { id: self.stamp()? },
                9 => OpKind::TextCreate { key: self.bytes()? },
                10 => OpKind::TextInsert { s: self.string()?, anchor: self.anchor()? },
                11 => {
                    let count: u32 = self.u32()?;
                    OpKind::TextDelete { ids: self.stamps(count)? }
                },
                12 => OpKind::XmlElementCreate { key: self.bytes()?, tag: self.bytes()? },
                13 => OpKind::XmlFragmentCreate { key: self.bytes()? },
                14 => OpKind::XmlInsertChild {
                    tag: self.opt_bytes_as("xml child tag present-flag")?,
                    anchor: self.anchor()?,
                },
                15 => OpKind::XmlMove { node: self.element_id()?, anchor: self.anchor()? },
                16 => OpKind::RangedCreate {
                    start: self.range_anchor()?,
                    end: self.range_anchor()?,
                    payload: self.ranged_init()?,
                    name: self.opt_bytes()?,
                },
                17 => OpKind::RangedSetPayload { id: self.element_id()?, payload: self.scalar()? },
                18 => OpKind::RangedDelete { id: self.element_id()? },
                19 => OpKind::AclGrant {
                    subject: self.acl_subject()?,
                    grant: self.acl_grant()?,
                    effect: self.acl_effect()?,
                    path: self.bytes()?,
                    grantor: self.client()?,
                },
                20 => OpKind::AclRevoke { id: self.element_id()? },
                tag => return Err(DecodeError::BadTag { what: "opkind", tag }),
            },
        )
    }

    pub(crate) fn op(&mut self) -> (r: Result<Op, DecodeError>)
        ensures
            reads_view(r, parse_op(old(self).rest@), final(self).rest@),
    {
        reveal(parse_op);
        reveal(parse_tx);
        let client = self.client()?;
        let seq: u64 = self.u64()?;
        let stamp = self.stamp()?;
        let target = self.element_id()?;
        let kind = self.opkind()?;
        let tx = match self.u8()? {
            0 => None,
            1 => {
                let id = TxId(self.u64()?);
                let count: u32 = self.u32()?;
                if count < 1 || count > MAX_TX_MEMBERS {
                    return Err(DecodeError::BadTag { what: "tx: group size", tag: 0 });
                }
                Some(Tx { id, count })
            },
            tag => return Err(DecodeError::BadTag { what: "tx", tag }),
        };
        Ok(Op { id: OpId { client, seq }, stamp, target, kind, tx, zone: None })
    }
}

/// The number whose two's complement bit pattern is `n`.
pub(crate) fn i64_of(n: u64) -> (v: i64)
    ensures
        v == bits_i64(n),
{
    if n <= i64::MAX as u64 {
        n as i64
    } else {
        -((u64::MAX - n) as i64) - 1
    }
}

impl RelativePosition {
    /// Encode to bytes so a position can cross the wire.
    pub fn encode(&self) -> (out: Vec<u8>)
        ensures
            out@ == enc_rel_position(*self),
    {
        let mut out: Vec<u8> = Vec::new();
        put_rel_position(&mut out, self);
        proof {
            assert(Seq::<u8>::empty() + enc_rel_position(*self) =~= enc_rel_position(*self));
        }
        out
    }

    /// Decode exactly one position; trailing bytes are an error.
    pub fn decode(bytes: &[u8]) -> (r: Result<Self, DecodeError>)
        ensures
            r == exactly(parse_rel_position(bytes@)),
    {
        let mut cur = Cursor::new(bytes);
        let pos = cur.rel_position()?;
        if !cur.at_end() {
            return Err(DecodeError::TrailingBytes);
        }
        Ok(pos)
    }
}

} // verus!
