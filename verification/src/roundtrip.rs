//! The codec's laws: what is encoded reads back, and what reads back is the one
//! encoding of the value it reads as.

use crate::acl::{AclEffect, AclGrantV, AclSubjectV, Capability};
use crate::anchor::{Anchor, RelativePosition, Side};
use crate::bytes::{lemma_utf8_canonical, lemma_utf8_round_trip};
use crate::clientid::ClientId;
use crate::elementid::ElementId;
use crate::format::{
    acl_grant_fits, acl_subject_fits, anchor_carried, enc_acl_effect, enc_acl_grant,
    enc_acl_subject, enc_anchor, enc_bytes, enc_capability, enc_i64, enc_op, enc_opkind, enc_ops,
    enc_opt_bytes, enc_opt_stamp, enc_range_anchor, enc_ranged_init, enc_rel_position, enc_scalar,
    enc_side, enc_stamp, enc_stamps, enc_text, enc_tx, enc_u32, enc_u64, enc_u8, exactly, fits_u32,
    i64_bits, lemma_concat_assoc, lemma_concat_empty, op_carried, op_fits, opkind_carried,
    opkind_fits, ops_fit, opt_fits, parse_acl_effect, parse_acl_grant, parse_acl_subject,
    parse_anchor, parse_bytes, parse_capability, parse_client, parse_element_id, parse_i64,
    parse_op, parse_opkind, parse_ops, parse_opt_bytes_as, parse_opt_stamp, parse_range_anchor,
    parse_ranged_init, parse_rel_position, parse_scalar, parse_side, parse_stamp, parse_stamps,
    parse_take, parse_text, parse_tx, parse_u32, parse_u64, parse_u8, position_carried, tx_carried,
    ranged_init_fits, scalar_fits, DecodeError,
};
use crate::op::{OpKindV, OpV, Tx};
use crate::ranged::{spec_is_composite_payload_kind, RangeAnchor, RangedInitV};
use crate::scalar::ScalarV;
use crate::stamp::Stamp;
use crate::wire::{
    lemma_be_bytes_len, lemma_be_bytes_of_value, lemma_be_value_of_bytes, lemma_le_bytes_len,
    lemma_le_bytes_of_value, lemma_le_value_of_bytes, lemma_pow256,
};
use vstd::prelude::*;

verus! {

// --- reading back ---

pub broadcast proof fn rt_take(a: Seq<u8>, rest: Seq<u8>, n: nat)
    requires
        a.len() == n,
    ensures
        #[trigger] parse_take(a + rest, n) == Ok::<(Seq<u8>, Seq<u8>), DecodeError>((a, rest)),
{
    assert((a + rest).take(n as int) =~= a);
    assert((a + rest).skip(n as int) =~= rest);
}

pub broadcast proof fn rt_u8(v: u8, rest: Seq<u8>)
    ensures
        #[trigger] parse_u8(enc_u8(v) + rest) == Ok::<(u8, Seq<u8>), DecodeError>((v, rest)),
{
    rt_take(enc_u8(v), rest, 1);
}

pub broadcast proof fn rt_u32(v: u32, rest: Seq<u8>)
    ensures
        #[trigger] parse_u32(enc_u32(v) + rest) == Ok::<(u32, Seq<u8>), DecodeError>((v, rest)),
{
    lemma_le_bytes_len(v as nat, 4);
    rt_take(enc_u32(v), rest, 4);
    lemma_pow256(4);
    lemma_le_value_of_bytes(v as nat, 4);
}

pub broadcast proof fn rt_u64(v: u64, rest: Seq<u8>)
    ensures
        #[trigger] parse_u64(enc_u64(v) + rest) == Ok::<(u64, Seq<u8>), DecodeError>((v, rest)),
{
    lemma_le_bytes_len(v as nat, 8);
    rt_take(enc_u64(v), rest, 8);
    lemma_pow256(8);
    lemma_le_value_of_bytes(v as nat, 8);
}

pub broadcast proof fn rt_i64(v: i64, rest: Seq<u8>)
    ensures
        #[trigger] parse_i64(enc_i64(v) + rest) == Ok::<(i64, Seq<u8>), DecodeError>((v, rest)),
{
    rt_u64(i64_bits(v), rest);
}

pub broadcast proof fn rt_bytes(b: Seq<u8>, rest: Seq<u8>)
    requires
        fits_u32(b.len()),
    ensures
        #[trigger] parse_bytes(enc_bytes(b) + rest) == Ok::<(Seq<u8>, Seq<u8>), DecodeError>(
            (b, rest),
        ),
{
    reveal(enc_bytes);
    reveal(parse_bytes);
    broadcast use lemma_concat_assoc;

    rt_u32(b.len() as u32, b + rest);
    rt_take(b, rest, b.len());
}

pub broadcast proof fn rt_opt_bytes(b: Option<Seq<u8>>, rest: Seq<u8>, what: &'static str)
    requires
        opt_fits(b),
    ensures
        #[trigger] parse_opt_bytes_as(enc_opt_bytes(b) + rest, what) == Ok::<
            (Option<Seq<u8>>, Seq<u8>),
            DecodeError,
        >((b, rest)),
{
    reveal(enc_opt_bytes);
    reveal(parse_opt_bytes_as);
    broadcast use {lemma_concat_assoc, rt_u8, rt_bytes};

}

pub broadcast proof fn rt_text(s: Seq<char>, rest: Seq<u8>)
    requires
        fits_u32(vstd::utf8::encode_utf8(s).len()),
    ensures
        #[trigger] parse_text(enc_text(s) + rest) == Ok::<(Seq<char>, Seq<u8>), DecodeError>(
            (s, rest),
        ),
{
    reveal(enc_text);
    reveal(parse_text);
    rt_bytes(vstd::utf8::encode_utf8(s), rest);
    lemma_utf8_round_trip(s);
}

pub broadcast proof fn rt_client(id: ClientId, rest: Seq<u8>)
    ensures
        #[trigger] parse_client(id.bytes() + rest) == Ok::<(ClientId, Seq<u8>), DecodeError>(
            (id, rest),
        ),
{
    lemma_be_bytes_len(id.bits as nat, 16);
    rt_take(id.bytes(), rest, 16);
    lemma_pow256(16);
    lemma_be_value_of_bytes(id.bits as nat, 16);
}

pub broadcast proof fn rt_element_id(id: ElementId, rest: Seq<u8>)
    ensures
        #[trigger] parse_element_id(id.bytes() + rest) == Ok::<(ElementId, Seq<u8>), DecodeError>(
            (id, rest),
        ),
{
    lemma_be_bytes_len(id.bits as nat, 16);
    rt_take(id.bytes(), rest, 16);
    lemma_pow256(16);
    lemma_be_value_of_bytes(id.bits as nat, 16);
}

pub broadcast proof fn rt_stamp(s: Stamp, rest: Seq<u8>)
    requires
        s.offset == 0,
    ensures
        #[trigger] parse_stamp(enc_stamp(s) + rest) == Ok::<(Stamp, Seq<u8>), DecodeError>(
            (s, rest),
        ),
{
    reveal(enc_stamp);
    reveal(parse_stamp);
    broadcast use {lemma_concat_assoc, rt_u64, rt_client};

}

pub broadcast group group_rt_leaf {
    lemma_concat_assoc,
    rt_u8,
    rt_u32,
    rt_u64,
    rt_i64,
    rt_bytes,
    rt_opt_bytes,
    rt_text,
    rt_client,
    rt_element_id,
    rt_stamp,
}

pub broadcast proof fn rt_scalar(s: ScalarV, rest: Seq<u8>)
    requires
        scalar_fits(s),
    ensures
        #[trigger] parse_scalar(enc_scalar(s) + rest) == Ok::<(ScalarV, Seq<u8>), DecodeError>(
            (s, rest),
        ),
{
    reveal(enc_scalar);
    reveal(parse_scalar);
    broadcast use group_rt_leaf;

    match s {
        ScalarV::BlobRef(r) => {
            let tail = enc_text(r.mime) + (enc_u64(r.size) + (enc_opt_bytes(r.inline) + rest));
            rt_take(r.id, tail, 16);
            assert(enc_scalar(s) + rest == enc_u8(4) + (r.id + tail));
        },
        _ => {},
    }
}

pub broadcast proof fn rt_anchor(a: Anchor, rest: Seq<u8>)
    requires
        anchor_carried(a),
    ensures
        #[trigger] parse_anchor(enc_anchor(a) + rest) == Ok::<(Anchor, Seq<u8>), DecodeError>(
            (a, rest),
        ),
{
    reveal(enc_anchor);
    reveal(parse_anchor);
    broadcast use group_rt_leaf;

    let tail = enc_side(a.side) + rest;
    assert(parse_side(tail) == Ok::<(Side, Seq<u8>), DecodeError>((a.side, rest)));
    assert(parse_opt_stamp(enc_opt_stamp(a.parent) + tail) == Ok::<
        (Option<Stamp>, Seq<u8>),
        DecodeError,
    >((a.parent, tail)));
}

pub broadcast proof fn rt_rel_position(p: RelativePosition, rest: Seq<u8>)
    requires
        position_carried(p),
    ensures
        #[trigger] parse_rel_position(enc_rel_position(p) + rest) == Ok::<
            (RelativePosition, Seq<u8>),
            DecodeError,
        >((p, rest)),
{
    broadcast use group_rt_leaf;

}

pub broadcast proof fn rt_range_anchor(a: RangeAnchor, rest: Seq<u8>)
    requires
        position_carried(a.pos),
    ensures
        #[trigger] parse_range_anchor(enc_range_anchor(a) + rest) == Ok::<
            (RangeAnchor, Seq<u8>),
            DecodeError,
        >((a, rest)),
{
    reveal(enc_range_anchor);
    reveal(parse_range_anchor);
    broadcast use {group_rt_leaf, rt_rel_position};

}

pub broadcast proof fn rt_ranged_init(p: RangedInitV, rest: Seq<u8>)
    requires
        ranged_init_fits(p),
        p matches RangedInitV::Composite(k) ==> spec_is_composite_payload_kind(k),
    ensures
        #[trigger] parse_ranged_init(enc_ranged_init(p) + rest) == Ok::<
            (RangedInitV, Seq<u8>),
            DecodeError,
        >((p, rest)),
{
    reveal(enc_ranged_init);
    reveal(parse_ranged_init);
    broadcast use {group_rt_leaf, rt_scalar};

}

pub broadcast proof fn rt_acl_subject(p: AclSubjectV, rest: Seq<u8>)
    requires
        acl_subject_fits(p),
    ensures
        #[trigger] parse_acl_subject(enc_acl_subject(p) + rest) == Ok::<
            (AclSubjectV, Seq<u8>),
            DecodeError,
        >((p, rest)),
{
    reveal(enc_acl_subject);
    reveal(parse_acl_subject);
    broadcast use group_rt_leaf;

}

pub broadcast proof fn rt_acl_grant(p: AclGrantV, rest: Seq<u8>)
    requires
        acl_grant_fits(p),
    ensures
        #[trigger] parse_acl_grant(enc_acl_grant(p) + rest) == Ok::<
            (AclGrantV, Seq<u8>),
            DecodeError,
        >((p, rest)),
{
    reveal(enc_acl_grant);
    reveal(parse_acl_grant);
    broadcast use group_rt_leaf;

    match p {
        AclGrantV::Capability(c) => {
            assert(parse_capability(enc_capability(c) + rest) == Ok::<
                (Capability, Seq<u8>),
                DecodeError,
            >((c, rest)));
        },
        _ => {},
    }
}

pub broadcast proof fn rt_acl_effect(p: AclEffect, rest: Seq<u8>)
    ensures
        #[trigger] parse_acl_effect(enc_acl_effect(p) + rest) == Ok::<
            (AclEffect, Seq<u8>),
            DecodeError,
        >((p, rest)),
{
    reveal(enc_acl_effect);
    reveal(parse_acl_effect);
    broadcast use group_rt_leaf;

}

pub broadcast proof fn rt_tx(tx: Option<Tx>, rest: Seq<u8>)
    requires
        tx_carried(tx),
    ensures
        #[trigger] parse_tx(enc_tx(tx) + rest) == Ok::<(Option<Tx>, Seq<u8>), DecodeError>(
            (tx, rest),
        ),
{
    reveal(enc_tx);
    reveal(parse_tx);
    broadcast use group_rt_leaf;

}

pub proof fn rt_stamps(ids: Seq<Stamp>, rest: Seq<u8>)
    requires
        forall|i: int| 0 <= i < ids.len() ==> (#[trigger] ids[i]).offset == 0,
    ensures
        parse_stamps(enc_stamps(ids) + rest, ids.len()) == Ok::<(Seq<Stamp>, Seq<u8>), DecodeError>(
            (ids, rest),
        ),
    decreases ids.len(),
{
    broadcast use group_rt_leaf;

    if ids.len() == 0 {
        assert(enc_stamps(ids) + rest =~= rest);
        assert(ids =~= Seq::empty());
    } else {
        let tail = ids.skip(1);
        assert forall|i: int| 0 <= i < tail.len() implies (#[trigger] tail[i]).offset == 0 by {
            assert(tail[i] == ids[i + 1]);
        }
        rt_stamps(tail, rest);
        assert(seq![ids[0]] + tail =~= ids);
    }
}

pub broadcast group group_rt {
    group_rt_leaf,
    rt_scalar,
    rt_anchor,
    rt_rel_position,
    rt_range_anchor,
    rt_ranged_init,
    rt_acl_subject,
    rt_acl_grant,
    rt_acl_effect,
    rt_tx,
}

#[verifier::rlimit(60)]
#[verifier::spinoff_prover]
pub broadcast proof fn rt_opkind(kind: OpKindV, rest: Seq<u8>)
    requires
        opkind_fits(kind),
        opkind_carried(kind),
    ensures
        #[trigger] parse_opkind(enc_opkind(kind) + rest) == Ok::<(OpKindV, Seq<u8>), DecodeError>(
            (kind, rest),
        ),
{
    reveal(enc_opkind);
    reveal(parse_opkind);
    broadcast use group_rt;

    match kind {
        OpKindV::TextDelete { ids } => {
            rt_stamps(ids, rest);
        },
        _ => {},
    }
}

pub proof fn rt_op(op: OpV, rest: Seq<u8>)
    requires
        op_fits(op),
        op_carried(op),
    ensures
        parse_op(enc_op(op) + rest) == Ok::<(OpV, Seq<u8>), DecodeError>((op, rest)),
{
    reveal(enc_op);
    reveal(parse_op);
    broadcast use {group_rt, rt_opkind};

}

// --- one encoding per value ---

pub broadcast proof fn can_take(s: Seq<u8>, n: nat)
    ensures
        (#[trigger] parse_take(s, n)) matches Ok((b, r)) ==> s == b + r && b.len() == n,
{
    if n <= s.len() {
        assert(s =~= s.take(n as int) + s.skip(n as int));
    }
}

pub broadcast proof fn can_u8(s: Seq<u8>)
    ensures
        (#[trigger] parse_u8(s)) matches Ok((v, r)) ==> s == enc_u8(v) + r,
{
    can_take(s, 1);
    if let Ok((b, r)) = parse_take(s, 1) {
        assert(b =~= enc_u8(b[0]));
    }
}

pub broadcast proof fn can_u32(s: Seq<u8>)
    ensures
        (#[trigger] parse_u32(s)) matches Ok((v, r)) ==> s == enc_u32(v) + r,
{
    can_take(s, 4);
    lemma_pow256(4);
    if let Ok((b, r)) = parse_take(s, 4) {
        lemma_le_bytes_of_value(b);
    }
}

pub broadcast proof fn can_u64(s: Seq<u8>)
    ensures
        (#[trigger] parse_u64(s)) matches Ok((v, r)) ==> s == enc_u64(v) + r,
{
    can_take(s, 8);
    lemma_pow256(8);
    if let Ok((b, r)) = parse_take(s, 8) {
        lemma_le_bytes_of_value(b);
    }
}

pub broadcast proof fn can_i64(s: Seq<u8>)
    ensures
        (#[trigger] parse_i64(s)) matches Ok((v, r)) ==> s == enc_i64(v) + r,
{
    can_u64(s);
}

pub broadcast proof fn can_bytes(s: Seq<u8>)
    ensures
        (#[trigger] parse_bytes(s)) matches Ok((b, r)) ==> s == enc_bytes(b) + r && fits_u32(
            b.len(),
        ),
{
    reveal(enc_bytes);
    reveal(parse_bytes);
    broadcast use {lemma_concat_assoc, can_u32, can_take};

}

pub broadcast proof fn can_opt_bytes(s: Seq<u8>, what: &'static str)
    ensures
        (#[trigger] parse_opt_bytes_as(s, what)) matches Ok((b, r)) ==> s == enc_opt_bytes(b) + r
            && opt_fits(b),
{
    reveal(enc_opt_bytes);
    reveal(parse_opt_bytes_as);
    broadcast use {lemma_concat_assoc, can_u8, can_bytes};

}

pub broadcast proof fn can_text(s: Seq<u8>)
    ensures
        (#[trigger] parse_text(s)) matches Ok((t, r)) ==> s == enc_text(t) + r && fits_u32(
            vstd::utf8::encode_utf8(t).len(),
        ),
{
    reveal(enc_text);
    reveal(parse_text);
    broadcast use {can_bytes, lemma_utf8_canonical};

}

pub broadcast proof fn can_client(s: Seq<u8>)
    ensures
        (#[trigger] parse_client(s)) matches Ok((id, r)) ==> s == id.bytes() + r,
{
    can_take(s, 16);
    lemma_pow256(16);
    if let Ok((b, r)) = parse_take(s, 16) {
        lemma_be_bytes_of_value(b);
    }
}

pub broadcast proof fn can_element_id(s: Seq<u8>)
    ensures
        (#[trigger] parse_element_id(s)) matches Ok((id, r)) ==> s == id.bytes() + r,
{
    can_take(s, 16);
    lemma_pow256(16);
    if let Ok((b, r)) = parse_take(s, 16) {
        lemma_be_bytes_of_value(b);
    }
}

pub broadcast proof fn can_stamp(s: Seq<u8>)
    ensures
        (#[trigger] parse_stamp(s)) matches Ok((p, r)) ==> s == enc_stamp(p) + r && p.offset == 0,
{
    reveal(enc_stamp);
    reveal(parse_stamp);
    broadcast use {lemma_concat_assoc, can_u64, can_client};

}

pub broadcast group group_can_leaf {
    lemma_concat_assoc,
    can_u8,
    can_u32,
    can_u64,
    can_i64,
    can_bytes,
    can_opt_bytes,
    can_text,
    can_client,
    can_element_id,
    can_stamp,
}

pub broadcast proof fn can_scalar(s: Seq<u8>)
    ensures
        (#[trigger] parse_scalar(s)) matches Ok((v, r)) ==> s == enc_scalar(v) + r && scalar_fits(
            v,
        ),
{
    reveal(enc_scalar);
    reveal(parse_scalar);
    broadcast use {group_can_leaf, can_take};

}

pub broadcast proof fn can_anchor(s: Seq<u8>)
    ensures
        (#[trigger] parse_anchor(s)) matches Ok((a, r)) ==> s == enc_anchor(a) + r
            && anchor_carried(a),
{
    reveal(enc_anchor);
    reveal(parse_anchor);
    broadcast use group_can_leaf;

}

pub broadcast proof fn can_rel_position(s: Seq<u8>)
    ensures
        (#[trigger] parse_rel_position(s)) matches Ok((p, r)) ==> s == enc_rel_position(p) + r
            && position_carried(p),
{
    broadcast use group_can_leaf;

}

pub broadcast proof fn can_range_anchor(s: Seq<u8>)
    ensures
        (#[trigger] parse_range_anchor(s)) matches Ok((a, r)) ==> s == enc_range_anchor(a) + r
            && position_carried(a.pos),
{
    reveal(enc_range_anchor);
    reveal(parse_range_anchor);
    broadcast use {group_can_leaf, can_rel_position};

}

pub broadcast proof fn can_ranged_init(s: Seq<u8>)
    ensures
        (#[trigger] parse_ranged_init(s)) matches Ok((p, r)) ==> s == enc_ranged_init(p) + r
            && ranged_init_fits(p) && (p matches RangedInitV::Composite(k)
            ==> spec_is_composite_payload_kind(k)),
{
    reveal(enc_ranged_init);
    reveal(parse_ranged_init);
    broadcast use {group_can_leaf, can_scalar};

}

pub broadcast proof fn can_acl_subject(s: Seq<u8>)
    ensures
        (#[trigger] parse_acl_subject(s)) matches Ok((p, r)) ==> s == enc_acl_subject(p) + r
            && acl_subject_fits(p),
{
    reveal(enc_acl_subject);
    reveal(parse_acl_subject);
    broadcast use group_can_leaf;

}

pub broadcast proof fn can_acl_grant(s: Seq<u8>)
    ensures
        (#[trigger] parse_acl_grant(s)) matches Ok((p, r)) ==> s == enc_acl_grant(p) + r
            && acl_grant_fits(p),
{
    reveal(enc_acl_grant);
    reveal(parse_acl_grant);
    broadcast use group_can_leaf;

}

pub broadcast proof fn can_acl_effect(s: Seq<u8>)
    ensures
        (#[trigger] parse_acl_effect(s)) matches Ok((p, r)) ==> s == enc_acl_effect(p) + r,
{
    reveal(enc_acl_effect);
    reveal(parse_acl_effect);
    broadcast use group_can_leaf;

}

pub broadcast proof fn can_tx(s: Seq<u8>)
    ensures
        (#[trigger] parse_tx(s)) matches Ok((tx, r)) ==> s == enc_tx(tx) + r && tx_carried(tx),
{
    reveal(enc_tx);
    reveal(parse_tx);
    broadcast use group_can_leaf;

}

pub broadcast proof fn can_stamps(s: Seq<u8>, n: nat)
    ensures
        (#[trigger] parse_stamps(s, n)) matches Ok((ids, r)) ==> s == enc_stamps(ids) + r
            && ids.len() == n && forall|i: int|
            0 <= i < ids.len() ==> (#[trigger] ids[i]).offset == 0,
    decreases n,
{
    broadcast use group_can_leaf;

    if n == 0 {
        assert(enc_stamps(Seq::empty()) + s =~= s);
    } else if let Ok((x, r)) = parse_stamp(s) {
        can_stamps(r, (n - 1) as nat);
        if let Ok((xs, _)) = parse_stamps(r, (n - 1) as nat) {
            assert((seq![x] + xs).skip(1) =~= xs);
        }
    }
}

pub broadcast group group_can {
    group_can_leaf,
    can_scalar,
    can_anchor,
    can_rel_position,
    can_range_anchor,
    can_ranged_init,
    can_acl_subject,
    can_acl_grant,
    can_acl_effect,
    can_tx,
    can_stamps,
}

#[verifier::rlimit(60)]
#[verifier::spinoff_prover]
pub broadcast proof fn can_opkind(s: Seq<u8>)
    ensures
        (#[trigger] parse_opkind(s)) matches Ok((kind, r)) ==> s == enc_opkind(kind) + r
            && opkind_fits(kind) && opkind_carried(kind),
{
    reveal(enc_opkind);
    reveal(parse_opkind);
    broadcast use group_can;

}

pub broadcast proof fn can_op(s: Seq<u8>)
    ensures
        (#[trigger] parse_op(s)) matches Ok((op, r)) ==> s == enc_op(op) + r && op_fits(op)
            && op_carried(op),
{
    reveal(enc_op);
    reveal(parse_op);
    broadcast use {group_can, can_opkind};

}

// --- laws ---

/// An encoded kind tells its own end: whatever bytes follow it, the kind decodes and they
/// are left.
pub proof fn law_opkind_is_self_delimiting(kind: OpKindV, rest: Seq<u8>)
    requires
        opkind_fits(kind),
        opkind_carried(kind),
    ensures
        parse_opkind(enc_opkind(kind) + rest) == Ok::<(OpKindV, Seq<u8>), DecodeError>(
            (kind, rest),
        ),
{
    rt_opkind(kind, rest);
}

/// An encoded op decodes to the op.
pub proof fn law_op_round_trip(op: OpV)
    requires
        op_fits(op),
        op_carried(op),
    ensures
        exactly(parse_op(enc_op(op))) == Ok::<OpV, DecodeError>(op),
{
    broadcast use lemma_concat_empty;

    rt_op(op, Seq::empty());
}

/// A byte string that decodes to an op is that op's encoding, so one op has one
/// byte string.
pub proof fn law_op_encoding_is_canonical(s: Seq<u8>)
    ensures
        exactly(parse_op(s)) matches Ok(op) ==> enc_op(op) == s && op_fits(op) && op_carried(op),
{
    broadcast use lemma_concat_empty;

    can_op(s);
    if let Ok((op, r)) = parse_op(s) {
        if r.len() == 0 {
            assert(r =~= Seq::empty());
        }
    }
}

/// An encoded op log decodes to the ops, in order.
pub proof fn law_op_log_round_trip(ops: Seq<OpV>)
    requires
        ops_fit(ops),
        forall|i: int| 0 <= i < ops.len() ==> op_carried(#[trigger] ops[i]),
    ensures
        parse_ops(enc_ops(ops)) == Ok::<Seq<OpV>, DecodeError>(ops),
    decreases ops.len(),
{
    if ops.len() == 0 {
        assert(ops =~= Seq::empty());
    } else {
        let tail = ops.skip(1);
        let s = enc_ops(ops);
        assert forall|i: int| 0 <= i < tail.len() implies op_fits(#[trigger] tail[i]) && fits_u32(
            enc_op(tail[i]).len(),
        ) && op_carried(tail[i]) by {
            assert(tail[i] == ops[i + 1]);
        }
        law_op_log_round_trip(tail);
        law_op_round_trip(ops[0]);
        rt_bytes(enc_op(ops[0]), enc_ops(tail));
        reveal(enc_bytes);
        reveal(parse_bytes);
        lemma_le_bytes_len(enc_op(ops[0]).len() as u32 as nat, 4);
        assert(s.len() > 0);
        assert(seq![ops[0]] + tail =~= ops);
    }
}

/// A byte string that decodes to an op log is that log's encoding.
pub proof fn law_op_log_encoding_is_canonical(s: Seq<u8>)
    ensures
        parse_ops(s) matches Ok(ops) ==> enc_ops(ops) == s && ops_fit(ops) && forall|i: int|
            0 <= i < ops.len() ==> op_carried(#[trigger] ops[i]),
    decreases s.len(),
{
    reveal(parse_bytes);
    if s.len() == 0 {
        assert(enc_ops(Seq::empty()) =~= s);
    } else if let Ok((frame, r)) = parse_bytes(s) {
        can_bytes(s);
        reveal(enc_bytes);
        law_op_encoding_is_canonical(frame);
        lemma_le_bytes_len(frame.len() as u32 as nat, 4);
        assert(r.len() < s.len());
        law_op_log_encoding_is_canonical(r);
        if let Ok(op) = exactly(parse_op(frame)) {
            if let Ok(ops) = parse_ops(r) {
                let all = seq![op] + ops;
                assert(all.skip(1) =~= ops);
                assert forall|i: int| 0 <= i < all.len() implies op_fits(#[trigger] all[i])
                    && fits_u32(enc_op(all[i]).len()) && op_carried(all[i]) by {
                    if i > 0 {
                        assert(all[i] == ops[i - 1]);
                    }
                }
            }
        }
    }
}

/// Two logs laid end to end are the log of the two sequences of ops laid end to end.
pub proof fn law_op_logs_concatenate(a: Seq<OpV>, b: Seq<OpV>)
    ensures
        enc_ops(a + b) == enc_ops(a) + enc_ops(b),
    decreases a.len(),
{
    broadcast use lemma_concat_assoc;

    if a.len() == 0 {
        assert(a + b =~= b);
        assert(enc_ops(a) + enc_ops(b) =~= enc_ops(b));
    } else {
        law_op_logs_concatenate(a.skip(1), b);
        assert((a + b).skip(1) =~= a.skip(1) + b);
    }
}

/// An encoded position decodes to the position, and a byte string that decodes to a
/// position is its encoding.
pub proof fn law_position_round_trip(pos: RelativePosition, s: Seq<u8>)
    ensures
        position_carried(pos) ==> exactly(parse_rel_position(enc_rel_position(pos))) == Ok::<
            RelativePosition,
            DecodeError,
        >(pos),
        exactly(parse_rel_position(s)) matches Ok(p) ==> enc_rel_position(p) == s,
{
    broadcast use lemma_concat_empty;

    if position_carried(pos) {
        rt_rel_position(pos, Seq::empty());
    }
    can_rel_position(s);
    if let Ok((p, r)) = parse_rel_position(s) {
        if r.len() == 0 {
            assert(r =~= Seq::empty());
        }
    }
}

} // verus!
