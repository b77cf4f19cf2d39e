//! Maps: last writer wins at each key, and creates are remembered.

use crdtsync_core::clientid::ClientId;
use crdtsync_core::element::Element;
use crdtsync_core::elementid::{ElementId, ElementKind};
use crdtsync_core::map::{higher, ContainerCreate, LwwMap};
use crdtsync_core::scalar::Scalar;
use crdtsync_core::stamp::Stamp;

fn stamp(lamport: u64) -> Stamp {
    Stamp { lamport, client: ClientId::from_bytes([1; 16]), offset: 0 }
}

fn eid(b: u8) -> ElementId {
    ElementId::from_bytes([b; 16])
}

fn num(n: i64) -> Element {
    Element::Scalar(Scalar::Int(n))
}

fn bytes(m: &LwwMap) -> Vec<u8> {
    let mut out = Vec::new();
    m.encode_state_into(&mut out);
    out
}

#[test]
fn merge_joins_the_retained_create_at_a_key() {
    // A container tombstone (a retained create, lower stamp) and a leaf
    // tombstone (none, higher stamp) at one key. The leaf wins the slot in
    // either direction, and the create it outranks is retained all the same:
    // what the key has seen is not what the slot's LWW winner happens to be.
    // Folding the same four ops in one replica reaches exactly this — create,
    // delete, scalar, delete — so a merge that dropped the create would encode
    // one op set two ways.
    let mut a = LwwMap::new(eid(1));
    a.set(b"k", Element::LwwMap(eid(9)), stamp(1));
    a.delete(b"k", stamp(2));
    assert!(a.slot_deleted_container(b"k").is_some());

    let mut b = LwwMap::new(eid(1));
    b.set(b"k", num(1), stamp(3));
    b.delete(b"k", stamp(4));
    assert!(b.slot_deleted_container(b"k").is_none());

    let mut ab = a.deep_clone();
    ab.merge(&b);
    let mut ba = b.deep_clone();
    ba.merge(&a);
    assert_eq!(
        ab.slot_deleted_container(b"k"),
        ba.slot_deleted_container(b"k"),
        "merge order must not change the retained create identity"
    );
    assert_eq!(
        ab.slot_deleted_container(b"k"),
        Some((stamp(1), ElementKind::LwwMap)),
        "the create the winning leaf tombstone outranks is still retained"
    );
    let mut folded = LwwMap::new(eid(1));
    folded.set(b"k", Element::LwwMap(eid(9)), stamp(1));
    folded.delete(b"k", stamp(2));
    folded.set(b"k", num(1), stamp(3));
    folded.delete(b"k", stamp(4));
    let mut merged = Vec::new();
    ab.encode_state_into(&mut merged);
    let mut direct = Vec::new();
    folded.encode_state_into(&mut direct);
    assert_eq!(merged, direct, "a merge and a fold of one op set agree");
}

#[test]
fn a_create_reaching_an_already_live_container_ranks_with_the_rest() {
    // Reaching a container that is already live at the key is still a create
    // there, and ranks like any other: without that, two orders of the same two
    // creates leave the slot at different stamps and retaining different
    // identities — the same divergence a losing create left.
    let encoded = |stamps: [Stamp; 2]| {
        let mut m = LwwMap::new(eid(1));
        for s in stamps {
            m.map(b"k", s);
        }
        m.delete(b"k", stamp(9));
        assert_eq!(
            m.slot_deleted_container(b"k"),
            Some((stamp(5), ElementKind::LwwMap)),
            "the higher-stamped create is the one the key retains"
        );
        let mut out = Vec::new();
        m.encode_state_into(&mut out);
        out
    };
    assert_eq!(encoded([stamp(1), stamp(5)]), encoded([stamp(5), stamp(1)]));
}

#[test]
fn the_higher_stamped_create_is_the_one_a_key_retains() {
    // Two creates of different kinds at one key, both outranked by the delete.
    // The rank is the creates' own — the higher stamp — so a replica that saw
    // the list first retains the same one as a replica that saw the map first.
    for reversed in [false, true] {
        let mut m = LwwMap::new(eid(1));
        let mut creates: Vec<(Stamp, Element)> = vec![
            (stamp(1), Element::LwwMap(eid(9))),
            (stamp(2), Element::List(eid(8))),
        ];
        if reversed {
            creates.reverse();
        }
        m.delete(b"k", stamp(3));
        for (s, value) in creates {
            m.set(b"k", value, s);
        }
        assert_eq!(
            m.slot_deleted_container(b"k"),
            Some((stamp(2), ElementKind::List)),
            "the higher-stamped create is retained, not the first one seen"
        );
    }
}

#[test]
fn the_higher_of_two_creates_is_a_join() {
    let a = Some(ContainerCreate { stamp: stamp(1), kind: ElementKind::LwwMap });
    let b = Some(ContainerCreate { stamp: stamp(2), kind: ElementKind::List });
    assert_eq!(higher(a, b), b);
    assert_eq!(higher(b, a), b);
    assert_eq!(higher(a, a), a);
    assert_eq!(higher(None, a), a);
}

#[test]
fn writes_land_in_either_order() {
    let mut a = LwwMap::new(eid(1));
    a.set(b"k", num(1), stamp(1));
    a.set(b"k", num(2), stamp(2));
    a.delete(b"gone", stamp(4));
    a.set(b"gone", num(9), stamp(3));
    let mut b = LwwMap::new(eid(1));
    b.set(b"gone", num(9), stamp(3));
    b.delete(b"gone", stamp(4));
    b.set(b"k", num(2), stamp(2));
    b.set(b"k", num(1), stamp(1));
    assert_eq!(a.get(b"k"), Some(num(2)));
    assert_eq!(a.get(b"gone"), None);
    assert_eq!(bytes(&a), bytes(&b));
    a.set(b"k", num(2), stamp(2));
    assert_eq!(bytes(&a), bytes(&b));
}

#[test]
fn deletes_land_in_either_order() {
    let mut a = LwwMap::new(eid(1));
    a.delete(b"k", stamp(1));
    a.delete(b"k", stamp(2));
    let mut b = LwwMap::new(eid(1));
    b.delete(b"k", stamp(2));
    b.delete(b"k", stamp(1));
    assert_eq!(bytes(&a), bytes(&b));
}

#[test]
fn merging_maps_commutes_associates_and_repeats() {
    let mut a = LwwMap::new(eid(1));
    a.set(b"x", num(1), stamp(1));
    let mut b = LwwMap::new(eid(1));
    b.set(b"x", num(2), stamp(2));
    b.set(b"y", num(3), stamp(3));
    let mut c = LwwMap::new(eid(1));
    c.delete(b"y", stamp(4));

    let mut ab = a.deep_clone();
    ab.merge(&b);
    let mut ba = b.deep_clone();
    ba.merge(&a);
    assert_eq!(bytes(&ab), bytes(&ba));

    let mut ab_c = ab.deep_clone();
    ab_c.merge(&c);
    let mut bc = b.deep_clone();
    bc.merge(&c);
    let mut a_bc = a.deep_clone();
    a_bc.merge(&bc);
    assert_eq!(bytes(&ab_c), bytes(&a_bc));
    assert_eq!(ab_c.keys(), vec![b"x".to_vec()]);

    let once = bytes(&ab_c);
    let copy = ab_c.deep_clone();
    ab_c.merge(&copy);
    assert_eq!(bytes(&ab_c), once);
}

#[test]
fn a_live_container_is_retained_when_deleted() {
    let mut m = LwwMap::new(eid(1));
    m.list(b"k", stamp(1));
    m.delete(b"k", stamp(2));
    assert_eq!(m.slot_deleted_container(b"k"), Some((stamp(1), ElementKind::List)));
    assert_eq!(m.size(), 0);
}

#[test]
fn a_displaced_map_keeps_its_slots() {
    let mut m = LwwMap::new(eid(1));
    m.set(b"k", num(1), stamp(1));
    m.displace();
    assert!(m.is_displaced());
    assert_eq!(m.get(b"k"), Some(num(1)));
    m.reinstate();
    assert!(!m.is_displaced());
}
