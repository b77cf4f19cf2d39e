//! Counters and registers.

use crdtsync_core::clientid::ClientId;
use crdtsync_core::counter::Counter;
use crdtsync_core::elementid::ElementId;
use crdtsync_core::format::DecodeError;
use crdtsync_core::register::Register;
use crdtsync_core::scalar::Scalar;
use crdtsync_core::stamp::Stamp;

fn cid(b: u8) -> ClientId {
    ClientId::from_bytes([b; 16])
}

fn eid(b: u8) -> ElementId {
    ElementId::from_bytes([b; 16])
}

fn stamp(lamport: u64, client: u8) -> Stamp {
    Stamp { lamport, client: cid(client), offset: 0 }
}

#[test]
fn a_counter_reads_increments_less_decrements() {
    let mut c = Counter::new(eid(1));
    c.inc(cid(1), 5);
    c.dec(cid(2), 7);
    c.inc(cid(2), 1);
    assert_eq!(c.read(), -1);
}

#[test]
fn an_increment_wraps_within_its_width() {
    let mut c = Counter::new(eid(1));
    c.inc(cid(1), u32::MAX);
    c.inc(cid(1), 2);
    assert_eq!(c.read(), 1);
}

#[test]
fn merging_counters_commutes_associates_and_repeats() {
    let mut a = Counter::new(eid(1));
    a.inc(cid(1), 3);
    let mut b = Counter::new(eid(1));
    b.inc(cid(1), 2);
    b.dec(cid(2), 1);
    let mut c = Counter::new(eid(1));
    c.inc(cid(3), 10);

    let mut ab = a.deep_clone();
    ab.merge(&b);
    let mut ba = b.deep_clone();
    ba.merge(&a);
    assert_eq!(ab.encode_state(), ba.encode_state());
    assert_eq!(ab.read(), 2);

    let mut ab_c = ab.deep_clone();
    ab_c.merge(&c);
    let mut bc = b.deep_clone();
    bc.merge(&c);
    let mut a_bc = a.deep_clone();
    a_bc.merge(&bc);
    assert_eq!(ab_c.encode_state(), a_bc.encode_state());

    let copy = ab_c.deep_clone();
    ab_c.merge(&copy);
    assert_eq!(ab_c.encode_state(), a_bc.encode_state());
    assert_eq!(ab_c.read(), 12);
}

#[test]
fn counts_by_two_clients_commute() {
    let mut a = Counter::new(eid(1));
    a.inc(cid(1), 3);
    a.dec(cid(2), 4);
    let mut b = Counter::new(eid(1));
    b.dec(cid(2), 4);
    b.inc(cid(1), 3);
    assert_eq!(a.encode_state(), b.encode_state());
}

#[test]
fn a_counter_reads_back_from_its_state() {
    let mut c = Counter::new(eid(1));
    c.inc(cid(1), 3);
    c.dec(cid(2), 4);
    let bytes = c.encode_state();
    let back = Counter::decode_state(&bytes).ok().unwrap();
    assert_eq!(back.read(), -1);
    assert_eq!(back.encode_state(), bytes);
    assert_eq!(
        Counter::decode_state(&bytes[..bytes.len() - 1]).err(),
        Some(DecodeError::UnexpectedEof)
    );
    let mut long = bytes.clone();
    long.push(0);
    assert_eq!(Counter::decode_state(&long).err(), Some(DecodeError::TrailingBytes));
}

#[test]
fn a_counter_that_names_a_client_twice_is_malformed() {
    let mut c = Counter::new(eid(1));
    c.inc(cid(1), 3);
    let one = c.encode_state();
    let mut twice = one.clone();
    twice[16] = 2;
    twice.extend_from_slice(&one[20..]);
    assert_eq!(
        Counter::decode_state(&twice).err(),
        Some(DecodeError::BadTag { what: "counter: duplicate client", tag: 0 })
    );
}

#[test]
fn register_writes_commute_and_repeat() {
    let mut a = Register::new(eid(1), Scalar::Int(0), stamp(1, 1));
    a.set(Scalar::Int(1), stamp(2, 1));
    a.set(Scalar::Int(2), stamp(2, 2));
    let mut b = Register::new(eid(1), Scalar::Int(0), stamp(1, 1));
    b.set(Scalar::Int(2), stamp(2, 2));
    b.set(Scalar::Int(1), stamp(2, 1));
    assert_eq!(a, b);
    assert_eq!(a.read(), &Scalar::Int(2));
    a.set(Scalar::Int(2), stamp(2, 2));
    assert_eq!(a, b);
}

#[test]
fn stamps_have_one_order() {
    let (a, b) = (stamp(1, 2), stamp(2, 1));
    assert!(b.gt(&a) && !a.gt(&b) && !a.gt(&a));
    assert!(stamp(1, 2).gt(&stamp(1, 1)));
    let mut offset = stamp(1, 1);
    offset.offset = 1;
    assert!(offset.gt(&stamp(1, 1)));
    assert_eq!(stamp(4, 1).run_member(3), stamp(7, 1));
}
