//! Replicas that saw the same ops, in any order, and what a snapshot or a projection of one
//! keeps.

use crdtsync_core::acl::{AclActor, AclEffect, AclGrant, AclSubject, Capability};
use crdtsync_core::clientid::ClientId;
use crdtsync_core::doc::Document;
use crdtsync_core::element::Element;
use crdtsync_core::elementid::ElementId;
use crdtsync_core::migration::{Migration, OpRewrite, Step};
use crdtsync_core::op::{Op, OpKind};
use crdtsync_core::path::encode_path;
use crdtsync_core::project::AclReader;
use crdtsync_core::scalar::Scalar;
use crdtsync_core::schema::{Schema, Zone};
use crdtsync_core::stamp::LAMPORT_STATE_CEILING;

fn author(first: u8) -> ClientId {
    let mut b = [0u8; 16];
    b[0] = first;
    ClientId::from_bytes(b)
}

/// A replica's state under one author.
fn as_one(d: &Document) -> Vec<u8> {
    match Document::decode_state_as(author(99), 0, &d.encode_state()) {
        Ok(d) => d.encode_state(),
        Err(e) => panic!("{e:?}"),
    }
}

fn fold(d: &mut Document, ops: &[Op]) {
    for op in ops {
        d.apply(op);
    }
}

/// Replicas that fold the two runs of ops on top of a base, one in each order.
fn either_order(base: &[Op], x: &[Op], y: &[Op]) -> (Document, Document) {
    let mut p = Document::new(author(50));
    let mut q = Document::new(author(50));
    fold(&mut p, base);
    fold(&mut q, base);
    fold(&mut p, x);
    fold(&mut p, y);
    fold(&mut q, y);
    fold(&mut q, x);
    (p, q)
}

#[test]
fn concurrent_edits_commute() {
    let mut a = Document::new(author(1));
    let base = a.transact(|tx| {
        tx.set(b"k", Scalar::Int(0));
        tx.register(b"r", Scalar::Int(0));
        tx.inc(b"c", 1);
        tx.list(b"l").insert(0, Scalar::Int(0));
        tx.text(b"t").insert(0, "ab");
        let mut frag = tx.xml_fragment(b"doc");
        frag.children().insert_element(0, b"p");
    });
    let mut b = Document::new(author(2));
    fold(&mut b, &base);
    let x = a.transact(|tx| {
        tx.set(b"k", Scalar::Int(1));
        tx.register(b"r", Scalar::Int(1));
        tx.inc(b"c", 4);
        tx.list(b"l").insert(1, Scalar::Int(1));
        tx.text(b"t").insert(1, "x");
        tx.map(b"m").set(b"in", Scalar::Int(1));
        let mut frag = tx.xml_fragment(b"doc");
        frag.children().insert_element(1, b"q");
    });
    let y = b.transact(|tx| {
        tx.delete(b"k");
        tx.register(b"r", Scalar::Int(2));
        tx.dec(b"c", 2);
        tx.list(b"l").insert(1, Scalar::Int(2));
        tx.text(b"t").delete(0, 1);
        tx.list(b"m").insert(0, Scalar::Int(2));
        let mut frag = tx.xml_fragment(b"doc");
        frag.children().insert_text(0).insert(0, "run");
    });
    let (p, q) = either_order(&base, &x, &y);
    assert_eq!(p.encode_state(), q.encode_state());
    assert_eq!(p.get(b"k"), q.get(b"k"));
    assert_eq!(p.seen().len(), base.len() + x.len() + y.len());
    match p.get(b"c") {
        Some(Element::Counter(id)) => assert_eq!(p.tree.counters.get(id).unwrap().read(), 3),
        other => panic!("{other:?}"),
    }
}

#[test]
fn concurrent_moves_of_one_node_converge() {
    let mut a = Document::new(author(1));
    let mut n = a.root_id();
    let mut left = n;
    let mut right = n;
    let base = a.transact(|tx| {
        let mut frag = tx.xml_fragment(b"doc");
        let mut kids = frag.children();
        n = kids.insert_element(0, b"n").id();
        left = kids.insert_element(1, b"left").id();
        right = kids.insert_element(2, b"right").id();
    });
    let mut b = Document::new(author(2));
    fold(&mut b, &base);
    let x = a.transact(|tx| tx.move_xml(n, left, 0));
    let y = b.transact(|tx| tx.move_xml(n, right, 0));
    assert!(matches!(x[0].kind, OpKind::XmlMove { .. }));
    let (p, q) = either_order(&base, &x, &y);
    assert_eq!(p.encode_state(), q.encode_state());
    assert_eq!(p.tree.moves.parent_of(n), q.tree.moves.parent_of(n));
    let to: Option<ElementId> = p.tree.moves.parent_of(n);
    assert!(to == Some(left) || to == Some(right));
    let winner = if x[0].stamp.gt(&y[0].stamp) { left } else { right };
    assert_eq!(to, Some(winner));
}

#[test]
fn a_move_and_edits_elsewhere_commute() {
    let mut a = Document::new(author(1));
    let mut n = a.root_id();
    let mut left = n;
    let base = a.transact(|tx| {
        let mut frag = tx.xml_fragment(b"doc");
        let mut kids = frag.children();
        n = kids.insert_element(0, b"n").id();
        left = kids.insert_element(1, b"left").id();
    });
    let mut b = Document::new(author(2));
    fold(&mut b, &base);
    let x = a.transact(|tx| tx.move_xml(n, left, 0));
    let y = b.transact(|tx| {
        tx.set(b"k", Scalar::Int(1));
        tx.list(b"l").insert(0, Scalar::Int(1));
        let mut frag = tx.xml_fragment(b"doc");
        frag.children().insert_element(2, b"late");
    });
    let (p, q) = either_order(&base, &x, &y);
    assert_eq!(p.encode_state(), q.encode_state());
    assert_eq!(p.tree.moves.parent_of(n), Some(left));
    assert_eq!(q.tree.moves.parent_of(n), Some(left));
}

#[test]
fn a_move_and_a_deletion_of_one_node_converge() {
    let mut a = Document::new(author(1));
    let mut n = a.root_id();
    let mut left = n;
    let base = a.transact(|tx| {
        let mut frag = tx.xml_fragment(b"doc");
        let mut kids = frag.children();
        n = kids.insert_element(0, b"n").id();
        left = kids.insert_element(1, b"left").id();
    });
    let mut b = Document::new(author(2));
    fold(&mut b, &base);
    let x = a.transact(|tx| tx.move_xml(n, left, 0));
    let y = b.transact(|tx| {
        let mut frag = tx.xml_fragment(b"doc");
        frag.children().delete(0);
    });
    assert!(matches!(x[0].kind, OpKind::XmlMove { .. }));
    assert!(matches!(y[y.len() - 1].kind, OpKind::ListDelete { .. }));
    let (p, q) = either_order(&base, &x, &y);
    assert_eq!(p.encode_state(), q.encode_state());
    let places = &x[0].target;
    assert_eq!(p.tree.lists.get(*places).unwrap().len(), 0);
    assert_eq!(q.tree.lists.get(*places).unwrap().len(), 0);
}

#[test]
fn an_op_that_came_early_lands_in_turn() {
    let mut a = Document::new(author(1));
    let ops = a.transact(|tx| tx.map(b"m").set(b"x", Scalar::Int(1)));
    let (p, q) = either_order(&[], &ops[..1], &ops[1..]);
    assert_eq!(p.encode_state(), q.encode_state());
    let mut early = Document::new(author(2));
    assert!(!early.apply(&ops[1]));
    assert!(early.seen().is_empty());
}

#[test]
fn a_group_lands_whole_in_either_order() {
    let mut a = Document::new(author(1));
    let ops = a.atomic_transact(|tx| {
        tx.map(b"m");
        tx.map(b"m").set(b"x", Scalar::Int(1));
    });
    assert_eq!(ops.len(), 2);
    let (p, q) = either_order(&[], &ops[..1], &ops[1..]);
    assert_eq!(p.encode_state(), q.encode_state());
    let mut half = Document::new(author(2));
    half.apply(&ops[0]);
    assert!(half.seen().is_empty());
    assert_eq!(half.get(b"m"), None);
}

#[test]
fn equal_states_have_equal_bytes_whatever_waits_first() {
    let mut a = Document::new(author(1));
    let ops = a.transact(|tx| {
        let mut m = tx.map(b"m");
        m.set(b"x", Scalar::Int(1));
        m.set(b"y", Scalar::Int(2));
    });
    assert_eq!(ops.len(), 3);
    let mut p = Document::new(author(2));
    let mut q = Document::new(author(2));
    fold(&mut p, &[ops[1].clone(), ops[2].clone()]);
    fold(&mut q, &[ops[2].clone(), ops[1].clone()]);
    assert_eq!(p.encode_state(), q.encode_state());
    let back = Document::decode_state(&p.encode_state()).ok().unwrap();
    assert_eq!(back.encode_state(), p.encode_state());
}

#[test]
fn a_snapshot_keeps_moves_notes_and_grants() {
    let mut d = Document::new(author(1));
    let mut n = d.root_id();
    d.transact(|tx| {
        let mut frag = tx.xml_fragment(b"doc");
        let mut kids = frag.children();
        n = kids.insert_element(0, b"n").id();
        let to = kids.insert_element(1, b"to").id();
        tx.move_xml(n, to, 0);
        tx.acl().grant(
            AclSubject::Anyone,
            AclGrant::Capability(Capability::Read),
            AclEffect::Allow,
            encode_path(&[]),
            author(1),
        );
        tx.set(b"k", Scalar::Int(1));
        tx.delete(b"k");
    });
    let back = Document::decode_state(&d.encode_state()).ok().unwrap();
    assert_eq!(back.encode_state(), d.encode_state());
    assert_eq!(back.tree.moves.parent_of(n), d.tree.moves.parent_of(n));
    assert_eq!(back.acl_tuples().len(), 1);
    assert_eq!(back.get(b"k"), None);
}

#[test]
fn the_record_dominates_the_content() {
    let mut d = Document::new(author(1));
    d.transact(|tx| tx.text(b"t").insert(0, "four"));
    let mut e = Document::new(author(2));
    for op in d.transact(|tx| tx.set(b"k", Scalar::Int(1))) {
        e.apply(&op);
        let top = *e.tree.high_water.get(&author(1)).unwrap();
        assert!(top >= op.stamp.lamport && top <= LAMPORT_STATE_CEILING);
    }
    let text = *d.tree.high_water.get(&author(1)).unwrap();
    assert!(text >= 5);
    assert!(Document::new(author(3)).tree.high_water.get(&author(3)).is_none());
}

#[test]
fn partitions_keep_their_own_clocks() {
    let schema = || Schema {
        zones: vec![
            Zone { path: vec![b"a".to_vec()], id: 1 },
            Zone { path: vec![b"b".to_vec()], id: 2 },
        ],
        marks: vec![],
    };
    let mut d = Document::new(author(1));
    d.set_schema(schema());
    d.transact(|tx| {
        tx.map(b"a");
        tx.map(b"b");
    });
    let (root, b) = (d.zone_clock(None), d.zone_clock(Some(2)));
    d.transact(|tx| tx.map(b"a").set(b"x", Scalar::Int(1)));
    assert!(d.zone_clock(Some(1)) > 0);
    assert_eq!(d.zone_clock(Some(2)), b);
    assert_eq!(d.zone_clock(None), root);
}

#[test]
fn scalars_are_not_orphaned() {
    let mut d = Document::new(author(1));
    d.transact(|tx| {
        tx.set(b"k", Scalar::Int(1));
        tx.set(b"k", Scalar::Int(2));
        tx.delete(b"k");
        tx.register(b"k", Scalar::Int(3));
    });
    assert!(d.take_orphans().is_empty());
}

#[test]
fn undo_restores_each_kind_of_slot() {
    let mut d = Document::new(author(1));
    d.transact(|tx| {
        tx.set(b"s", Scalar::Int(1));
        tx.register(b"r", Scalar::Int(1));
        tx.map(b"m").set(b"x", Scalar::Int(1));
        tx.inc(b"c", 5);
        tx.xml_element(b"e", b"tag");
        tx.list(b"l").insert(0, Scalar::Int(1));
    });
    let keys: [&[u8]; 5] = [b"s", b"m", b"c", b"e", b"l"];
    let was: Vec<Option<Element>> = keys.iter().map(|k| d.get(k)).collect();
    d.set_undo_origin(b"me");
    for key in keys {
        d.transact(|tx| tx.set(key, Scalar::Null));
        assert_eq!(d.get(key), Some(Element::Scalar(Scalar::Null)));
        assert!(d.undo(b"me").is_some());
    }
    let now: Vec<Option<Element>> = keys.iter().map(|k| d.get(k)).collect();
    assert_eq!(now, was);
    d.transact(|tx| tx.delete(b"r"));
    d.undo(b"me");
    match d.get(b"r") {
        Some(Element::Register(r)) => assert_eq!(r.read(), &Scalar::Int(1)),
        other => panic!("{other:?}"),
    }
}

#[test]
fn undo_cancels_counts_and_inserts() {
    let mut d = Document::new(author(1));
    d.transact(|tx| {
        tx.inc(b"c", 5);
        tx.list(b"l").insert(0, Scalar::Int(1));
    });
    let values = |d: &Document| match d.get(b"l") {
        Some(Element::List(id)) => d.tree.lists.get(id).unwrap().values(),
        other => panic!("{other:?}"),
    };
    let count = |d: &Document| match d.get(b"c") {
        Some(Element::Counter(id)) => d.tree.counters.get(id).unwrap().read(),
        other => panic!("{other:?}"),
    };
    let was = values(&d);
    d.set_undo_origin(b"me");
    d.transact(|tx| {
        tx.inc(b"c", 7);
        tx.list(b"l").insert(0, Scalar::Int(9));
    });
    assert_eq!((count(&d), values(&d).len()), (12, 2));
    d.undo(b"me");
    assert_eq!((count(&d), values(&d)), (5, was));
}

#[test]
fn a_snapshot_with_nodes_reencodes_to_the_same_bytes() {
    let again = |bytes: &[u8]| match Document::decode_state(bytes) {
        Ok(d) => d.encode_state(),
        Err(e) => panic!("{e:?}"),
    };
    let mut d = Document::new(author(1));
    let mut n = d.root_id();
    let mut left = n;
    d.transact(|tx| {
        let mut frag = tx.xml_fragment(b"doc");
        let mut kids = frag.children();
        n = kids.insert_element(0, b"n").id();
        left = kids.insert_element(1, b"left").id();
        kids.insert_text(2).insert(0, "run");
    });
    let still = d.encode_state();
    assert_eq!(again(&still), still);
    d.transact(|tx| {
        let mut frag = tx.xml_fragment(b"doc");
        frag.children().delete(2);
    });
    let cut = d.encode_state();
    assert_eq!(again(&cut), cut);
    assert_ne!(cut, still);
    d.transact(|tx| tx.move_xml(n, left, 0));
    let moved = d.encode_state();
    assert_eq!(again(&moved), moved);
    assert_ne!(moved, cut);
    let link = d.tree.parents.get(&n).copied();
    match Document::decode_state(&moved) {
        Ok(back) => assert_eq!(back.tree.parents.get(&n).copied(), link),
        Err(e) => panic!("{e:?}"),
    }
}

#[test]
fn undo_puts_deleted_items_and_text_back() {
    let mut d = Document::new(author(1));
    d.transact(|tx| {
        let mut l = tx.list(b"l");
        l.insert(0, Scalar::Int(1));
        l.insert(1, Scalar::Int(2));
        l.insert(0, Scalar::Int(0));
        tx.text(b"t").insert(0, "a long run");
    });
    let values = |d: &Document| match d.get(b"l") {
        Some(Element::List(id)) => d.tree.lists.get(id).unwrap().values(),
        other => panic!("{other:?}"),
    };
    let text = |d: &Document| match d.get(b"t") {
        Some(Element::Text(id)) => d.tree.texts.get(id).unwrap().as_string(),
        other => panic!("{other:?}"),
    };
    let was = (values(&d), text(&d));
    d.set_undo_origin(b"me");
    d.transact(|tx| {
        tx.list(b"l").delete(1);
        tx.text(b"t").delete(2, 5);
    });
    assert_eq!((values(&d).len(), text(&d)), (2, "a run".to_string()));
    d.undo(b"me");
    assert_eq!((values(&d), text(&d)), was);
}

fn key_path(keys: &[&str]) -> Vec<u8> {
    let keys: Vec<Vec<u8>> = keys.iter().map(|k| k.as_bytes().to_vec()).collect();
    encode_path(&keys)
}

fn granted(d: &mut Document, effect: AclEffect, at: &[&str]) {
    d.transact(|tx| {
        tx.acl().grant(
            AclSubject::Anyone,
            AclGrant::Capability(Capability::Read),
            effect,
            key_path(at),
            author(1),
        );
    });
}

#[test]
fn a_denied_leaf_is_left_out_of_a_readable_map() {
    let mut d = Document::new(author(1));
    d.transact(|tx| {
        let mut m = tx.map(b"m");
        m.set(b"open", Scalar::Int(1));
        m.set(b"shut", Scalar::Int(2));
        m.inc(b"count", 3);
    });
    granted(&mut d, AclEffect::Allow, &[]);
    granted(&mut d, AclEffect::Deny, &["m", "shut"]);
    granted(&mut d, AclEffect::Deny, &["m", "count"]);
    let mut e = Document::new(author(2));
    let from_e = e.transact(|tx| tx.set(b"own", Scalar::Int(4)));
    fold(&mut d, &from_e);
    let reader = AclReader { tuples: d.acl_tuples(), actor: AclActor::new(author(2)) };
    let Some(Element::LwwMap(m)) = d.get(b"m") else { panic!() };
    d.project_read_paths(&reader, Some(author(2)));
    let map = d.tree.maps.get(m).unwrap();
    assert!(map.get(b"open").is_some());
    assert!(map.get(b"shut").is_none() && map.get(b"count").is_none());
    assert_eq!(d.acl_tuples().len(), 1);
    let ids = d.seen();
    assert_eq!(ids.len(), 1);
    assert_eq!(ids[0].client, author(2));
}

#[test]
fn a_reader_denied_nothing_is_given_everything() {
    let mut d = Document::new(author(1));
    d.transact(|tx| {
        tx.map(b"m").set(b"x", Scalar::Int(1));
        tx.text(b"t").insert(0, "abc");
        let mut frag = tx.xml_fragment(b"doc");
        frag.children().insert_element(0, b"p");
    });
    granted(&mut d, AclEffect::Allow, &[]);
    let reader = AclReader { tuples: d.acl_tuples(), actor: AclActor::new(author(2)) };
    let before = d.encode_state();
    d.project_read_paths(&reader, Some(author(2)));
    assert_eq!(d.encode_state(), before);
    assert_eq!(as_one(&d), as_one(&Document::decode_state(&before).ok().unwrap()));
}

#[test]
fn every_order_of_delivery_ends_in_the_same_bytes() {
    let mut a = Document::new(author(1));
    let mut ops = a.transact(|tx| {
        tx.map(b"m").set(b"k", Scalar::Int(1));
        tx.list(b"l").insert(0, Scalar::Int(1));
    });
    ops.extend(a.atomic_transact(|tx| {
        tx.set(b"x", Scalar::Int(2));
        tx.inc(b"n", 3);
    }));
    assert_eq!(ops.len(), 6);
    let mut straight = Document::new(author(50));
    fold(&mut straight, &ops);
    let expected = straight.encode_state();
    let mut order: Vec<usize> = (0..ops.len()).collect();
    let mut turns = vec![0; ops.len()];
    let mut i = 0;
    while i < ops.len() {
        if turns[i] < i {
            order.swap(if i % 2 == 0 { 0 } else { turns[i] }, i);
            turns[i] += 1;
            i = 0;
            let mut d = Document::new(author(50));
            for at in &order {
                d.apply(&ops[*at]);
                d.apply(&ops[order[0]]);
            }
            assert_eq!(d.encode_state(), expected);
        } else {
            turns[i] = 0;
            i += 1;
        }
    }
}

#[test]
fn a_renamed_write_lands_as_the_renamed_op_does() {
    let mut here = Document::new(author(1));
    let ops = here.transact(|tx| {
        tx.set(b"new", Scalar::Int(1));
        tx.set(b"old", Scalar::Int(2));
    });
    let name = |s: &str| s.to_string();
    let step = Step::RenameField { ty: name("Root"), from: name("old"), to: name("new") };
    let edge = Migration { from: 1, to: 2, steps: vec![step] };
    let mut by_state = Document::new(author(50));
    fold(&mut by_state, &ops);
    by_state.migrate_leaf_slots(&edge);
    let mut by_ops = Document::new(author(50));
    for op in &ops {
        if let OpRewrite::Keep(op) = edge.rewrite_up(op) {
            by_ops.apply(&op);
        }
    }
    assert_eq!(by_state.encode_state(), by_ops.encode_state());
}

#[test]
fn a_snapshot_keeps_what_waits() {
    let mut a = Document::new(author(1));
    let ops = a.transact(|tx| {
        tx.map(b"m").set(b"k", Scalar::Int(1));
        tx.text(b"t").insert(0, "hi");
    });
    let group = a.atomic_transact(|tx| {
        tx.set(b"x", Scalar::Int(2));
        tx.set(b"y", Scalar::Int(3));
    });
    let mut d = Document::new(author(50));
    assert!(!d.apply(&ops[1]));
    assert!(!d.apply(&group[0]));
    assert!(d.apply(&ops[2]));
    let bytes = d.encode_state();
    let mut back = match Document::decode_state(&bytes) {
        Ok(back) => back,
        Err(e) => panic!("{e:?}"),
    };
    assert_eq!(back.encode_state(), bytes);
    assert!(back.apply(&ops[0]));
    assert!(back.apply(&group[1]));
    assert_eq!(back.get(b"x"), Some(Element::Scalar(Scalar::Int(2))));
    assert_eq!(back.seen().len(), 5);
}

#[test]
fn an_edit_is_what_its_op_does() {
    let mut a = Document::new(author(1));
    let ops = a.transact(|tx| {
        tx.inc(b"n", 2);
        tx.list(b"l").insert(0, Scalar::Int(1));
    });
    let mut b = Document::new(author(2));
    fold(&mut b, &ops);
    assert_eq!(as_one(&a), as_one(&b));
}

#[test]
fn nodes_and_moves_end_in_the_same_bytes_in_every_order() {
    let mut a = Document::new(author(1));
    let mut n = a.root_id();
    let mut left = n;
    let mut ops = a.transact(|tx| {
        let mut frag = tx.xml_fragment(b"doc");
        let mut kids = frag.children();
        n = kids.insert_element(0, b"n").id();
        left = kids.insert_element(1, b"left").id();
    });
    ops.extend(a.transact(|tx| tx.move_xml(n, left, 0)));
    ops.extend(a.transact(|tx| {
        if let Some(mut kids) = tx.xml_children(b"doc") {
            kids.insert_text(1);
        }
    }));
    ops.extend(a.transact(|tx| {
        if let Some(mut kids) = tx.xml_children(b"doc") {
            kids.delete(0);
        }
    }));
    assert_eq!(ops.len(), 6);
    let mut straight = Document::new(author(50));
    fold(&mut straight, &ops);
    let expected = straight.encode_state();
    let mut order: Vec<usize> = (0..ops.len()).collect();
    let mut turns = vec![0; ops.len()];
    let mut i = 0;
    while i < ops.len() {
        if turns[i] < i {
            order.swap(if i % 2 == 0 { 0 } else { turns[i] }, i);
            turns[i] += 1;
            i = 0;
            let mut d = Document::new(author(50));
            for at in &order {
                d.apply(&ops[*at]);
                d.apply(&ops[order[0]]);
            }
            assert_eq!(d.encode_state(), expected);
            assert_eq!(d.tree.moves.parent_of(n), Some(left));
        } else {
            turns[i] = 0;
            i += 1;
        }
    }
}

#[test]
fn an_author_agrees_with_who_receives() {
    let mut a = Document::new(author(1));
    let mut b = Document::new(author(2));
    let mut ops = a.transact(|tx| {
        let mut frag = tx.xml_fragment(b"doc");
        frag.children().insert_element(0, b"p");
        tx.inc(b"c", 2);
    });
    fold(&mut b, &ops);
    let from_b = b.transact(|tx| {
        tx.inc(b"c", 3);
        if let Some(mut kids) = tx.xml_children(b"doc") {
            kids.insert_text(0).insert(0, "run");
        }
    });
    fold(&mut a, &from_b);
    let last = a.transact(|tx| {
        if let Some(mut kids) = tx.xml_children(b"doc") {
            kids.delete(1);
        }
    });
    ops.extend(from_b);
    ops.extend(last);
    ops.reverse();
    let mut c = Document::new(author(3));
    fold(&mut c, &ops);
    assert_eq!(as_one(&a), as_one(&c));
    for i in 0..ops.len() {
        for j in 0..i {
            assert!(ops[i].id != ops[j].id);
        }
    }
}

#[test]
fn a_snapshot_keeps_nodes_moves_and_own_edits() {
    let mut a = Document::new(author(1));
    let mut n = a.root_id();
    let mut left = n;
    a.transact(|tx| {
        let mut frag = tx.xml_fragment(b"doc");
        let mut kids = frag.children();
        n = kids.insert_element(0, b"n").id();
        left = kids.insert_element(1, b"left").id();
        kids.insert_text(2).insert(0, "run");
    });
    let mut b = Document::new(author(2));
    fold(&mut b, &ops_of(&mut a, n, left));
    a.atomic_transact(|tx| {
        tx.set(b"x", Scalar::Int(2));
        tx.inc(b"c", 3);
    });
    let bytes = a.encode_state();
    let back = match Document::decode_state(&bytes) {
        Ok(back) => back,
        Err(e) => panic!("{e:?}"),
    };
    assert_eq!(back.encode_state(), bytes);
    assert_eq!(back.tree.moves.parent_of(n), Some(left));
    assert_eq!(back.seen().len(), a.seen().len());
    assert_eq!(b.encode_state(), Document::decode_state(&b.encode_state()).ok().unwrap().encode_state());
    let mut more = bytes.clone();
    more.push(0);
    assert!(Document::decode_state(&more).is_err());
}

/// A move of one node under another.
fn ops_of(a: &mut Document, n: ElementId, to: ElementId) -> Vec<Op> {
    a.transact(|tx| tx.move_xml(n, to, 0))
}

#[test]
fn a_loaded_replica_takes_no_op_twice() {
    let mut a = Document::new(author(1));
    let ops = a.transact(|tx| {
        tx.inc(b"c", 2);
        tx.list(b"l").insert(0, Scalar::Int(1));
    });
    let mut d = Document::new(author(50));
    fold(&mut d, &ops);
    let bytes = d.encode_state();
    let mut back = Document::decode_state(&bytes).ok().unwrap();
    for op in &ops {
        assert!(!back.apply(op));
    }
    assert_eq!(back.encode_state(), bytes);
}

#[test]
fn a_projection_keeps_what_may_be_read() {
    let mut d = Document::new(author(1));
    d.transact(|tx| {
        let mut m = tx.map(b"m");
        m.set(b"open", Scalar::Int(1));
        m.map(b"in").set(b"deep", Scalar::Int(3));
        tx.map(b"shut").set(b"x", Scalar::Int(2));
    });
    granted(&mut d, AclEffect::Allow, &[]);
    granted(&mut d, AclEffect::Deny, &["shut"]);
    let reader = AclReader { tuples: d.acl_tuples(), actor: AclActor::new(author(2)) };
    let Some(Element::LwwMap(m)) = d.get(b"m") else { panic!() };
    let Some(Element::LwwMap(deep)) = d.tree.maps.get(m).unwrap().get(b"in") else { panic!() };
    d.project_read_paths(&reader, Some(author(2)));
    assert_eq!(d.tree.maps.get(m).unwrap().get(b"open"), Some(Element::Scalar(Scalar::Int(1))));
    assert_eq!(d.tree.maps.get(deep).unwrap().get(b"deep"), Some(Element::Scalar(Scalar::Int(3))));
    assert!(d.get(b"shut").is_none());
}

#[test]
fn containers_join_id_by_id() {
    let mut a = Document::new(author(1));
    a.transact(|tx| {
        tx.map(b"m").set(b"x", Scalar::Int(1));
        tx.text(b"t").insert(0, "a");
    });
    let mut b = Document::new(author(2));
    b.transact(|tx| {
        let mut m = tx.map(b"m");
        m.set(b"y", Scalar::Int(2));
        m.map(b"in").set(b"deep", Scalar::Int(3));
        tx.text(b"t").insert(0, "b");
        tx.inc(b"c", 4);
    });
    let Some(Element::LwwMap(m)) = a.get(b"m") else { panic!() };
    let Some(Element::Text(t)) = a.get(b"t") else { panic!() };
    let Some(Element::LwwMap(deep)) = b.tree.maps.get(m).unwrap().get(b"in") else { panic!() };
    a.tree.merge(&b.tree);
    let joined = a.tree.maps.get(m).unwrap();
    assert_eq!(joined.get(b"x"), Some(Element::Scalar(Scalar::Int(1))));
    assert_eq!(joined.get(b"y"), Some(Element::Scalar(Scalar::Int(2))));
    assert_eq!(a.tree.maps.get(deep).unwrap().get(b"deep"), Some(Element::Scalar(Scalar::Int(3))));
    assert_eq!(a.tree.texts.get(t).unwrap().len(), 2);
    assert_eq!(a.tree.counters.len(), 1);
    let before = a.encode_state();
    a.tree.merge(&b.tree);
    assert_eq!(a.encode_state(), before);
}
