//! Lists and texts.

use crdtsync_core::anchor::{Anchor, RelativePosition, Side};
use crdtsync_core::clientid::ClientId;
use crdtsync_core::element::Element;
use crdtsync_core::elementid::ElementId;
use crdtsync_core::format::DecodeError;
use crdtsync_core::list::List;
use crdtsync_core::scalar::Scalar;
use crdtsync_core::stamp::Stamp;
use crdtsync_core::text::Text;

fn eid(b: u8) -> ElementId {
    ElementId::from_bytes([b; 16])
}

fn stamp(lamport: u64, client: u8) -> Stamp {
    Stamp { lamport, client: ClientId::from_bytes([client; 16]), offset: 0 }
}

fn num(n: i64) -> Element {
    Element::Scalar(Scalar::Int(n))
}

fn ints(l: &List) -> Vec<i64> {
    l.values()
        .into_iter()
        .map(|e| match e {
            Element::Scalar(Scalar::Int(n)) => n,
            other => panic!("{other:?}"),
        })
        .collect()
}

fn filled(n: u64) -> List {
    let mut l = List::new(eid(1));
    for i in 0..n {
        l.insert(i as usize, num(i as i64), stamp(i + 1, 1));
    }
    l
}

#[test]
fn an_insert_lands_at_its_index() {
    for index in 0..=4usize {
        let mut l = filled(4);
        l.insert(index, num(99), stamp(9, 2));
        let mut want = vec![0, 1, 2, 3];
        want.insert(index, 99);
        assert_eq!(ints(&l), want);
        assert_eq!(l.live_index(stamp(9, 2)), Some(index));
        assert_eq!(l.node_at(index), Some(stamp(9, 2)));
    }
}

#[test]
fn a_delete_removes_only_its_item() {
    let mut l = filled(4);
    l.delete(1);
    assert_eq!(ints(&l), vec![0, 2, 3]);
    assert!(l.contains(stamp(2, 1)));
    assert!(l.is_tombstoned(stamp(2, 1)));
    assert_eq!(l.live_index(stamp(2, 1)), None);
    l.delete(9);
    assert_eq!(l.len(), 3);
}

#[test]
fn a_position_follows_its_item() {
    let mut l = filled(3);
    let left = l.relative_position(2, Side::Left);
    let right = l.relative_position(2, Side::Right);
    assert_eq!(left, RelativePosition::After(stamp(2, 1)));
    assert_eq!(right, RelativePosition::Before(stamp(3, 1)));
    assert_eq!(l.resolve_position_present(&left), Some(2));
    assert_eq!(l.resolve_position_present(&right), Some(2));
    l.insert(0, num(9), stamp(9, 2));
    assert_eq!(l.resolve_position(&left), 3);
    assert_eq!(l.resolve_position(&RelativePosition::Start), 0);
    assert_eq!(l.resolve_position(&RelativePosition::End), 4);
    assert_eq!(l.resolve_position_present(&RelativePosition::After(stamp(77, 7))), None);
}

#[test]
fn a_position_keeps_its_place_past_an_insert() {
    for (at, left, right) in [(1, 3, 3), (2, 2, 3), (3, 2, 2)] {
        let mut l = filled(3);
        let leans_left = l.relative_position(2, Side::Left);
        let leans_right = l.relative_position(2, Side::Right);
        l.insert(at, num(9), stamp(9, 2));
        assert_eq!(l.resolve_position_present(&leans_left), Some(left));
        assert_eq!(l.resolve_position_present(&leans_right), Some(right));
    }
}

#[test]
fn concurrent_inserts_commute_and_repeat() {
    let base = filled(2);
    let at = base.place(1);
    let mut a = base.deep_clone();
    a.insert_at(stamp(10, 1), num(10), at);
    a.insert_at(stamp(10, 2), num(20), at);
    let mut b = base.deep_clone();
    b.insert_at(stamp(10, 2), num(20), at);
    b.insert_at(stamp(10, 1), num(10), at);
    assert_eq!(a.encode_state(), b.encode_state());
    assert_eq!(ints(&a), ints(&b));
    a.insert_at(stamp(10, 1), num(10), at);
    assert_eq!(a.encode_state(), b.encode_state());
}

#[test]
fn an_insert_and_a_delete_commute() {
    let base = filled(3);
    let at = base.place(1);
    let mut a = base.deep_clone();
    a.insert_at(stamp(10, 2), num(9), at);
    a.delete_id(stamp(2, 1));
    let mut b = base.deep_clone();
    b.delete_id(stamp(2, 1));
    b.insert_at(stamp(10, 2), num(9), at);
    assert_eq!(a.encode_state(), b.encode_state());
}

#[test]
fn merging_lists_commutes_associates_and_repeats() {
    let base = filled(3);
    let mut a = base.deep_clone();
    a.insert(1, num(10), stamp(10, 1));
    let mut b = base.deep_clone();
    b.insert(1, num(20), stamp(10, 2));
    let mut c = base.deep_clone();
    c.delete(2);

    let mut ab = a.deep_clone();
    ab.merge(&b);
    let mut ba = b.deep_clone();
    ba.merge(&a);
    assert_eq!(ab.encode_state(), ba.encode_state());

    let mut ab_c = ab.deep_clone();
    ab_c.merge(&c);
    let mut bc = b.deep_clone();
    bc.merge(&c);
    let mut a_bc = a.deep_clone();
    a_bc.merge(&bc);
    assert_eq!(ab_c.encode_state(), a_bc.encode_state());
    assert!(ab_c.is_tombstoned(stamp(3, 1)));

    let copy = ab_c.deep_clone();
    ab_c.merge(&copy);
    assert_eq!(ab_c.encode_state(), a_bc.encode_state());
}

#[test]
fn a_list_reads_back_from_its_state() {
    let mut l = filled(5);
    l.delete(1);
    l.delete(1);
    let bytes = l.encode_state();
    let back = List::decode_state(&bytes).ok().unwrap();
    assert_eq!(ints(&back), vec![0, 3, 4]);
    assert!(back.is_tombstoned(stamp(2, 1)) && back.is_tombstoned(stamp(3, 1)));
    assert_eq!(back.encode_state(), bytes);
    assert_eq!(
        List::decode_state(&bytes[..bytes.len() - 1]).err(),
        Some(DecodeError::UnexpectedEof)
    );
}

#[test]
fn a_run_of_deletes_is_one_record() {
    let mut l = filled(6);
    for _ in 0..6 {
        l.delete(0);
    }
    assert!(l.is_empty());
    assert_eq!(l.stored_records(), 1);
    let other = {
        let mut m = filled(6);
        for _ in 0..6 {
            m.delete(m.len() - 1);
        }
        m
    };
    assert_eq!(l.encode_state(), other.encode_state());
}

#[test]
fn every_id_is_in_order_once() {
    let mut l = filled(4);
    l.insert(2, num(7), stamp(9, 3));
    let ids = l.node_ids(0, 100);
    assert_eq!(ids.len(), 5);
    for (i, id) in ids.iter().enumerate() {
        assert_eq!(l.live_index(*id), Some(i));
    }
}

#[test]
fn a_text_run_lands_at_its_index() {
    let mut t = Text::new(eid(1));
    t.insert_run(stamp(1, 1), "held", Anchor { parent: None, side: Side::Right });
    let at = t.place(2);
    t.insert_run(stamp(10, 2), "l\u{e9}", at);
    assert_eq!(t.as_string(), "hel\u{e9}ld");
    assert_eq!(t.len(), 6);
    assert_eq!(t.node_ids(2, 2), vec![stamp(10, 2), stamp(11, 2)]);
    let ids = t.node_ids(0, 2);
    t.delete_ids(&ids);
    assert_eq!(t.as_string(), "l\u{e9}ld");
}
