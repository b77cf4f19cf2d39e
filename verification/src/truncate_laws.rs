//! Bytes cut short: what a reader makes of the front of an encoding.

use crate::format::{
    enc_op, exactly, op_carried, op_fits, parse_acl_effect, parse_acl_grant, parse_acl_subject,
    parse_anchor, parse_bytes, parse_client, parse_composite_payload_kind, parse_element_id,
    parse_i64, parse_op, parse_opkind, parse_opkind_body, parse_opt_bytes_as, parse_range_anchor,
    parse_ranged_init, parse_rel_position, parse_scalar, parse_stamp, parse_stamps, parse_take,
    parse_text, parse_tx, parse_u32, parse_u64, parse_u8, DecodeError, Parsed,
};
use crate::op::OpV;
use crate::roundtrip::law_op_round_trip;
use vstd::prelude::*;

verus! {

/// Whether more bytes at the end change nothing of a reading but what is left over, unless
/// it had run out of bytes.
pub open spec fn reads_on<T>(p: Parsed<T>, q: Parsed<T>, x: Seq<u8>) -> bool {
    match p {
        Ok((v, r)) => q == Ok::<(T, Seq<u8>), DecodeError>((v, r + x)),
        Err(DecodeError::UnexpectedEof) => true,
        Err(e) => q == Err::<(T, Seq<u8>), DecodeError>(e),
    }
}

broadcast proof fn px_take(s: Seq<u8>, x: Seq<u8>, n: nat)
    ensures
        reads_on(parse_take(s, n), #[trigger] parse_take(s + x, n), x),
{
    if n <= s.len() {
        assert((s + x).take(n as int) =~= s.take(n as int));
        assert((s + x).skip(n as int) =~= s.skip(n as int) + x);
    }
}

broadcast proof fn px_u8(s: Seq<u8>, x: Seq<u8>)
    ensures
        reads_on(parse_u8(s), #[trigger] parse_u8(s + x), x),
{
    broadcast use px_take;

}

broadcast proof fn px_u32(s: Seq<u8>, x: Seq<u8>)
    ensures
        reads_on(parse_u32(s), #[trigger] parse_u32(s + x), x),
{
    broadcast use px_take;

}

broadcast proof fn px_u64(s: Seq<u8>, x: Seq<u8>)
    ensures
        reads_on(parse_u64(s), #[trigger] parse_u64(s + x), x),
{
    broadcast use px_take;

}

broadcast proof fn px_i64(s: Seq<u8>, x: Seq<u8>)
    ensures
        reads_on(parse_i64(s), #[trigger] parse_i64(s + x), x),
{
    broadcast use px_u64;

}

broadcast proof fn px_client(s: Seq<u8>, x: Seq<u8>)
    ensures
        reads_on(parse_client(s), #[trigger] parse_client(s + x), x),
{
    broadcast use px_take;

}

broadcast proof fn px_element_id(s: Seq<u8>, x: Seq<u8>)
    ensures
        reads_on(parse_element_id(s), #[trigger] parse_element_id(s + x), x),
{
    broadcast use px_take;

}

broadcast proof fn px_bytes(s: Seq<u8>, x: Seq<u8>)
    ensures
        reads_on(parse_bytes(s), #[trigger] parse_bytes(s + x), x),
{
    reveal(parse_bytes);
    broadcast use {px_take, px_u32};

}

broadcast proof fn px_text(s: Seq<u8>, x: Seq<u8>)
    ensures
        reads_on(parse_text(s), #[trigger] parse_text(s + x), x),
{
    reveal(parse_text);
    broadcast use px_bytes;

}

broadcast proof fn px_stamp(s: Seq<u8>, x: Seq<u8>)
    ensures
        reads_on(parse_stamp(s), #[trigger] parse_stamp(s + x), x),
{
    reveal(parse_stamp);
    broadcast use {px_u64, px_client};

}

broadcast group group_prefix_leaf {
    px_take,
    px_u8,
    px_u32,
    px_u64,
    px_i64,
    px_client,
    px_element_id,
    px_bytes,
    px_text,
    px_stamp,
}

broadcast proof fn px_opt_bytes_as(s: Seq<u8>, x: Seq<u8>, what: &'static str)
    ensures
        reads_on(parse_opt_bytes_as(s, what), #[trigger] parse_opt_bytes_as(s + x, what), x),
{
    reveal(parse_opt_bytes_as);
    broadcast use group_prefix_leaf;

}

broadcast proof fn px_scalar(s: Seq<u8>, x: Seq<u8>)
    ensures
        reads_on(parse_scalar(s), #[trigger] parse_scalar(s + x), x),
{
    reveal(parse_scalar);
    broadcast use {group_prefix_leaf, px_opt_bytes_as};

}

broadcast proof fn px_anchor(s: Seq<u8>, x: Seq<u8>)
    ensures
        reads_on(parse_anchor(s), #[trigger] parse_anchor(s + x), x),
{
    reveal(parse_anchor);
    broadcast use group_prefix_leaf;

}

broadcast proof fn px_rel_position(s: Seq<u8>, x: Seq<u8>)
    ensures
        reads_on(parse_rel_position(s), #[trigger] parse_rel_position(s + x), x),
{
    broadcast use group_prefix_leaf;

}

broadcast proof fn px_range_anchor(s: Seq<u8>, x: Seq<u8>)
    ensures
        reads_on(parse_range_anchor(s), #[trigger] parse_range_anchor(s + x), x),
{
    reveal(parse_range_anchor);
    broadcast use {group_prefix_leaf, px_rel_position};

}

broadcast proof fn px_composite_payload_kind(s: Seq<u8>, x: Seq<u8>)
    ensures
        reads_on(parse_composite_payload_kind(s), #[trigger] parse_composite_payload_kind(s + x), x),
{
    broadcast use group_prefix_leaf;

}

broadcast proof fn px_ranged_init(s: Seq<u8>, x: Seq<u8>)
    ensures
        reads_on(parse_ranged_init(s), #[trigger] parse_ranged_init(s + x), x),
{
    reveal(parse_ranged_init);
    broadcast use {group_prefix_leaf, px_scalar, px_composite_payload_kind};

}

broadcast proof fn px_acl_subject(s: Seq<u8>, x: Seq<u8>)
    ensures
        reads_on(parse_acl_subject(s), #[trigger] parse_acl_subject(s + x), x),
{
    reveal(parse_acl_subject);
    broadcast use group_prefix_leaf;

}

broadcast proof fn px_acl_grant(s: Seq<u8>, x: Seq<u8>)
    ensures
        reads_on(parse_acl_grant(s), #[trigger] parse_acl_grant(s + x), x),
{
    reveal(parse_acl_grant);
    broadcast use group_prefix_leaf;

}

broadcast proof fn px_acl_effect(s: Seq<u8>, x: Seq<u8>)
    ensures
        reads_on(parse_acl_effect(s), #[trigger] parse_acl_effect(s + x), x),
{
    reveal(parse_acl_effect);
    broadcast use group_prefix_leaf;

}

broadcast proof fn px_tx(s: Seq<u8>, x: Seq<u8>)
    ensures
        reads_on(parse_tx(s), #[trigger] parse_tx(s + x), x),
{
    reveal(parse_tx);
    broadcast use group_prefix_leaf;

}

broadcast proof fn px_stamps(s: Seq<u8>, x: Seq<u8>, n: nat)
    ensures
        reads_on(parse_stamps(s, n), #[trigger] parse_stamps(s + x, n), x),
    decreases n,
{
    if n > 0 {
        px_stamp(s, x);
        if let Ok((v, r)) = parse_stamp(s) {
            px_stamps(r, x, (n - 1) as nat);
        }
    }
}

broadcast group group_prefix {
    group_prefix_leaf,
    px_opt_bytes_as,
    px_scalar,
    px_anchor,
    px_range_anchor,
    px_ranged_init,
    px_acl_subject,
    px_acl_grant,
    px_acl_effect,
    px_tx,
    px_stamps,
}

#[verifier::rlimit(60)]
#[verifier::spinoff_prover]
proof fn px_opkind_body(tag: u8, s: Seq<u8>, x: Seq<u8>)
    ensures
        reads_on(parse_opkind_body(tag, s), parse_opkind_body(tag, s + x), x),
{
    broadcast use group_prefix;

}

proof fn px_opkind(s: Seq<u8>, x: Seq<u8>)
    ensures
        reads_on(parse_opkind(s), parse_opkind(s + x), x),
{
    reveal(parse_opkind);
    px_u8(s, x);
    if let Ok((tag, r)) = parse_u8(s) {
        px_opkind_body(tag, r, x);
    }
}

/// More bytes behind an op change nothing of how it reads.
proof fn px_op(s: Seq<u8>, x: Seq<u8>)
    ensures
        reads_on(parse_op(s), parse_op(s + x), x),
{
    reveal(parse_op);
    broadcast use group_prefix;

    if let Ok((_, r)) = parse_client(s) {
        if let Ok((_, r)) = parse_u64(r) {
            if let Ok((_, r)) = parse_stamp(r) {
                if let Ok((_, r)) = parse_element_id(r) {
                    px_opkind(r, x);
                }
            }
        }
    }
}

/// An op cut short does not decode: every proper prefix of an op's encoding ends before a
/// field is fully read.
pub proof fn law_a_truncated_op_does_not_decode(op: OpV, n: nat)
    requires
        op_fits(op),
        op_carried(op),
        n < enc_op(op).len(),
    ensures
        exactly(parse_op(enc_op(op).take(n as int))) == Err::<OpV, DecodeError>(
            DecodeError::UnexpectedEof,
        ),
{
    let s = enc_op(op);
    let p = s.take(n as int);
    let x = s.skip(n as int);
    assert(p + x =~= s);
    law_op_round_trip(op);
    px_op(p, x);
}

} // verus!
