//! Moving nodes in a tree.

use crdtsync_core::clientid::ClientId;
use crdtsync_core::elementid::ElementId;
use crdtsync_core::stamp::Stamp;
use crdtsync_core::treemove::TreeMoves;

fn eid(b: u8) -> ElementId {
    ElementId::from_bytes([b; 16])
}

fn stamp(lamport: u64) -> Stamp {
    Stamp { lamport, client: ClientId::from_bytes([1; 16]), offset: 0 }
}

fn tree() -> TreeMoves {
    let mut m = TreeMoves::new();
    m.set_base(eid(2), eid(1));
    m.set_base(eid(3), eid(1));
    m
}

#[test]
fn moves_land_in_either_order_and_never_close_a_loop() {
    let mut a = tree();
    a.apply(stamp(1), eid(2), eid(3));
    a.apply(stamp(2), eid(3), eid(2));
    let mut b = tree();
    b.apply(stamp(2), eid(3), eid(2));
    b.apply(stamp(1), eid(2), eid(3));
    for m in [&a, &b] {
        assert_eq!(m.parent_of(eid(2)), Some(eid(3)));
        assert_eq!(m.parent_of(eid(3)), Some(eid(1)));
        assert_eq!(m.parent_of(eid(1)), None);
    }
    a.apply(stamp(1), eid(2), eid(3));
    assert_eq!(a.len(), 2);
    a.remove(stamp(1), eid(2), eid(3));
    assert_eq!(a.parent_of(eid(3)), Some(eid(2)));
}
