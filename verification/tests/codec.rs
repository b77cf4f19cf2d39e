//! Ops, positions and paths as bytes.

use crdtsync_core::acl::{AclEffect, AclGrant, AclSubject, Capability};
use crdtsync_core::anchor::{Anchor, RelativePosition, Side};
use crdtsync_core::clientid::ClientId;
use crdtsync_core::codec::{decode_op, decode_ops, encode_op, encode_ops};
use crdtsync_core::elementid::{ElementId, ElementKind};
use crdtsync_core::format::DecodeError;
use crdtsync_core::op::{Op, OpId, OpKind, Tx, TxId, MAX_TX_MEMBERS};
use crdtsync_core::path::{encode_path, parse_path};
use crdtsync_core::ranged::{RangeAnchor, RangedInit};
use crdtsync_core::scalar::{BlobRef, Scalar};
use crdtsync_core::stamp::Stamp;

fn cid(b: u8) -> ClientId {
    ClientId::from_bytes([b; 16])
}

fn eid(b: u8) -> ElementId {
    ElementId::from_bytes([b; 16])
}

fn stamp(lamport: u64) -> Stamp {
    Stamp { lamport, client: cid(1), offset: 0 }
}

fn op(kind: OpKind) -> Op {
    Op::new(OpId { client: cid(1), seq: 5 }, stamp(6), eid(2), kind)
}

fn kinds() -> Vec<OpKind> {
    let key = || b"key".to_vec();
    let anchor = Anchor { parent: Some(stamp(1)), side: Side::Left };
    let root = Anchor { parent: None, side: Side::Right };
    let at = |pos| RangeAnchor { seq: eid(4), pos };
    vec![
        OpKind::RegisterSet { key: key(), value: Scalar::Null },
        OpKind::CounterInc { key: key(), amount: 7 },
        OpKind::CounterDec { key: key(), amount: u32::MAX },
        OpKind::MapSet { key: key(), value: Scalar::Int(i64::MIN) },
        OpKind::MapSet { key: key(), value: Scalar::Bool(true) },
        OpKind::MapSet { key: key(), value: Scalar::Bytes(vec![0, 255]) },
        OpKind::MapSet { key: key(), value: Scalar::ElementRef(eid(7)) },
        OpKind::MapSet {
            key: key(),
            value: Scalar::BlobRef(BlobRef {
                id: [9; 16],
                mime: "image/\u{e9}".to_string(),
                size: 1 << 40,
                inline: Some(vec![1]),
            }),
        },
        OpKind::MapDelete { key: key() },
        OpKind::MapCreate { key: key() },
        OpKind::ListCreate { key: key() },
        OpKind::ListInsert { value: Scalar::Int(-1), anchor },
        OpKind::ListDelete { id: stamp(3) },
        OpKind::TextCreate { key: key() },
        OpKind::TextInsert { s: "h\u{e9}llo".to_string(), anchor: root },
        OpKind::TextDelete { ids: vec![stamp(3), stamp(4)] },
        OpKind::XmlElementCreate { key: key(), tag: b"p".to_vec() },
        OpKind::XmlFragmentCreate { key: key() },
        OpKind::XmlInsertChild { tag: Some(b"b".to_vec()), anchor },
        OpKind::XmlInsertChild { tag: None, anchor: root },
        OpKind::XmlMove { node: eid(3), anchor },
        OpKind::RangedCreate {
            start: at(RelativePosition::Start),
            end: at(RelativePosition::After(stamp(2))),
            payload: RangedInit::Scalar(Scalar::Bool(false)),
            name: Some(b"bold".to_vec()),
        },
        OpKind::RangedCreate {
            start: at(RelativePosition::Before(stamp(2))),
            end: at(RelativePosition::End),
            payload: RangedInit::Composite(ElementKind::Text),
            name: None,
        },
        OpKind::RangedSetPayload { id: eid(3), payload: Scalar::Null },
        OpKind::RangedDelete { id: eid(3) },
        OpKind::AclGrant {
            subject: AclSubject::Group(b"staff".to_vec()),
            grant: AclGrant::Capability(Capability::Write),
            effect: AclEffect::Deny,
            path: vec![],
            grantor: cid(4),
        },
        OpKind::AclGrant {
            subject: AclSubject::Actor(cid(3)),
            grant: AclGrant::Role(b"editor".to_vec()),
            effect: AclEffect::Allow,
            path: vec![1],
            grantor: cid(4),
        },
        OpKind::AclRevoke { id: eid(3) },
    ]
}

#[test]
fn every_op_reads_back_from_its_bytes() {
    for kind in kinds() {
        let mut o = op(kind);
        let bytes = encode_op(&o);
        assert_eq!(decode_op(&bytes), Ok(o.clone()));
        for cut in 0..bytes.len() {
            assert_eq!(decode_op(&bytes[..cut]).err(), Some(DecodeError::UnexpectedEof));
        }
        o.tx = Some(Tx { id: TxId(99), count: 3 });
        let tagged = encode_op(&o);
        assert_eq!(decode_op(&tagged).as_ref().map(encode_op), Ok(tagged.clone()));
        assert_ne!(tagged, bytes);
    }
}

#[test]
fn an_op_log_reads_back_and_logs_concatenate() {
    let a: Vec<Op> = kinds().into_iter().map(op).collect();
    let b = vec![op(OpKind::MapDelete { key: vec![] })];
    let mut both = encode_ops(&a);
    both.extend(encode_ops(&b));
    let back = decode_ops(&both).unwrap();
    assert_eq!(back.len(), a.len() + 1);
    assert_eq!(encode_ops(&back), both);
    assert_eq!(decode_ops(&[]), Ok(vec![]));
}

#[test]
fn malformed_ops_are_refused() {
    let bytes = encode_op(&op(OpKind::MapDelete { key: b"k".to_vec() }));
    let mut long = bytes.clone();
    long.push(7);
    assert_eq!(decode_op(&long), Err(DecodeError::TrailingBytes));
    // client, sequence, stamp and target come before the kind's tag
    let tag_at = 16 + 8 + 24 + 16;
    let mut bad = bytes.clone();
    bad[tag_at] = 200;
    assert!(matches!(decode_op(&bad), Err(DecodeError::BadTag { tag: 200, .. })));
    let mut text = encode_op(&op(OpKind::TextInsert {
        s: "ab".to_string(),
        anchor: Anchor { parent: None, side: Side::Left },
    }));
    let at = text.windows(2).position(|w| w == b"ab").unwrap();
    text[at] = 0xff;
    assert_eq!(decode_op(&text), Err(DecodeError::BadUtf8));
}

#[test]
fn a_position_reads_back_from_its_bytes() {
    for pos in [
        RelativePosition::Start,
        RelativePosition::End,
        RelativePosition::Before(stamp(3)),
        RelativePosition::After(stamp(4)),
    ] {
        assert_eq!(RelativePosition::decode(&pos.encode()), Ok(pos));
    }
    assert!(RelativePosition::decode(&[9]).is_err());
}

#[test]
fn a_path_reads_back_and_its_start_leads_to_it() {
    let keys = vec![b"a".to_vec(), vec![], b"long key".to_vec()];
    let bytes = encode_path(&keys);
    assert_eq!(parse_path(&bytes), Some(keys.clone()));
    assert!(bytes.starts_with(&encode_path(&keys[..2])));
    assert_eq!(encode_path(&[]), Vec::<u8>::new());
    assert_eq!(parse_path(&bytes[..bytes.len() - 1]), None);
}

#[test]
fn a_group_has_a_size_it_can_reach() {
    let mut grouped = op(OpKind::MapDelete { key: b"k".to_vec() });
    grouped.tx = Some(Tx { id: TxId(3), count: 2 });
    let good = encode_op(&grouped);
    assert_eq!(decode_op(&good), Ok(grouped));
    let refused = Err(DecodeError::BadTag { what: "tx: group size", tag: 0 });
    let at = good.len() - 4;
    for size in [0u32, MAX_TX_MEMBERS + 1, u32::MAX] {
        let mut bytes = good.clone();
        bytes[at..].copy_from_slice(&size.to_le_bytes());
        assert_eq!(decode_op(&bytes), refused);
    }
    let mut most = good.clone();
    most[at..].copy_from_slice(&MAX_TX_MEMBERS.to_le_bytes());
    assert!(decode_op(&most).is_ok());
}

#[test]
fn an_op_cut_short_does_not_decode() {
    for kind in kinds() {
        let bytes = encode_op(&op(kind));
        for n in 0..bytes.len() {
            assert_eq!(decode_op(&bytes[..n]), Err(DecodeError::UnexpectedEof));
        }
    }
}
