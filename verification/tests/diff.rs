//! Structural diffs and their byte and text forms.

use crdtsync_core::anchor::{Anchor, Side};
use crdtsync_core::changes::{decode_changes, encode_changes, Change, SeqItem};
use crdtsync_core::clientid::ClientId;
use crdtsync_core::diff::diff;
use crdtsync_core::doc::Document;
use crdtsync_core::elementid::{ElementId, ElementKind};
use crdtsync_core::format::DecodeError;
use crdtsync_core::op::{Op, OpId, OpKind};
use crdtsync_core::path::encode_path;
use crdtsync_core::render::render;
use crdtsync_core::scalar::Scalar;
use crdtsync_core::stamp::Stamp;
use crdtsync_core::xml::XmlElement;

fn cid(b: u8) -> ClientId {
    ClientId::from_bytes([b; 16])
}

fn path(keys: &[&str]) -> Vec<u8> {
    let keys: Vec<Vec<u8>> = keys.iter().map(|k| k.as_bytes().to_vec()).collect();
    encode_path(&keys)
}

fn pair() -> (Document, Document) {
    let mut a = Document::new(cid(1));
    let ops = a.transact(|tx| {
        tx.set(b"b", Scalar::Int(1));
        tx.inc(b"c", 1);
        tx.set(b"gone", Scalar::Null);
        let mut l = tx.list(b"l");
        for i in 0..4 {
            l.insert(i, Scalar::Int(i as i64));
        }
        tx.map(b"m").set(b"x", Scalar::Int(1));
        tx.text(b"t").insert(0, "hello");
    });
    let mut b = Document::new(cid(2));
    for op in &ops {
        b.apply(op);
    }
    b.transact(|tx| {
        tx.map(b"a");
        tx.set(b"b", Scalar::Int(2));
        tx.inc(b"c", 4);
        tx.delete(b"gone");
        let mut l = tx.list(b"l");
        l.delete(1);
        l.delete(1);
        l.insert(2, Scalar::Bool(true));
        tx.map(b"m").set(b"x", Scalar::Bytes(vec![1, 2, 3]));
        let mut t = tx.text(b"t");
        t.delete(4, 1);
        t.insert(0, "o");
    });
    (a, b)
}

fn expected() -> Vec<Change> {
    vec![
        Change::Added { path: path(&["a"]), kind: ElementKind::LwwMap },
        Change::Value { path: path(&["b"]), old: Scalar::Int(1), new: Scalar::Int(2) },
        Change::Counter { path: path(&["c"]), old: 1, new: 5 },
        Change::Removed { path: path(&["gone"]), kind: ElementKind::Scalar },
        Change::ListDelete {
            path: path(&["l"]),
            index: 1,
            items: vec![SeqItem::Scalar(Scalar::Int(1)), SeqItem::Scalar(Scalar::Int(2))],
        },
        Change::ListInsert {
            path: path(&["l"]),
            index: 2,
            items: vec![SeqItem::Scalar(Scalar::Bool(true))],
        },
        Change::Value {
            path: path(&["m", "x"]),
            old: Scalar::Int(1),
            new: Scalar::Bytes(vec![1, 2, 3]),
        },
        Change::TextDelete { path: path(&["t"]), index: 4, text: "o".to_string() },
        Change::TextInsert { path: path(&["t"]), index: 0, text: "o".to_string() },
    ]
}

#[test]
fn a_diff_reports_each_change_in_path_order() {
    let (a, b) = pair();
    assert_eq!(diff(&a, &b), expected());
}

#[test]
fn a_replica_does_not_differ_from_itself() {
    let (a, b) = pair();
    assert!(diff(&a, &a).is_empty());
    assert!(diff(&b, &b).is_empty());
}

#[test]
fn another_kind_or_tag_is_a_replacement() {
    let mut a = Document::new(cid(1));
    a.transact(|tx| {
        tx.set(b"k", Scalar::Int(1));
        tx.xml_element(b"x", b"p");
    });
    let mut b = Document::new(cid(2));
    b.transact(|tx| {
        tx.list(b"k");
        tx.xml_element(b"x", b"q");
    });
    let kinds: Vec<Change> = diff(&a, &b);
    assert_eq!(
        kinds,
        vec![
            Change::Removed { path: path(&["k"]), kind: ElementKind::Scalar },
            Change::Added { path: path(&["k"]), kind: ElementKind::List },
            Change::Removed { path: path(&["x"]), kind: ElementKind::XmlElement },
            Change::Added { path: path(&["x"]), kind: ElementKind::XmlElement },
        ]
    );
}

#[test]
fn an_element_diffs_as_its_children_and_then_its_attributes() {
    let mut a = Document::new(cid(1));
    let ops = a.transact(|tx| {
        tx.xml_element(b"x", b"p").attrs().set(b"id", Scalar::Int(1));
    });
    let mut b = Document::new(cid(2));
    for op in &ops {
        b.apply(op);
    }
    b.transact(|tx| {
        let mut x = tx.xml_element(b"x", b"p");
        x.attrs().set(b"id", Scalar::Int(2));
        x.children().insert_text(0);
    });
    assert_eq!(
        diff(&a, &b),
        vec![
            Change::ListInsert {
                path: path(&["x"]),
                index: 0,
                items: vec![SeqItem::Composite(ElementKind::Text)],
            },
            Change::Value { path: path(&["x", "id"]), old: Scalar::Int(1), new: Scalar::Int(2) },
        ]
    );
}

#[test]
fn a_change_list_reads_back_from_its_bytes() {
    let bytes = encode_changes(&expected());
    assert_eq!(decode_changes(&bytes), Ok(expected()));
    assert_eq!(decode_changes(&bytes[..bytes.len() - 1]), Err(DecodeError::UnexpectedEof));
    let mut long = bytes.clone();
    long.push(0);
    assert_eq!(decode_changes(&long), Err(DecodeError::TrailingBytes));
    assert_eq!(
        decode_changes(&[1, 0, 0, 0, 8]),
        Err(DecodeError::BadTag { what: "diff change", tag: 8 })
    );
    assert_eq!(
        decode_changes(&[1, 0, 0, 0, 0, 0, 0, 0, 0, 99]),
        Err(DecodeError::BadTag { what: "element kind", tag: 99 })
    );
    let mut items = vec![1, 0, 0, 0, 4, 0, 0, 0, 0];
    items.extend([0u8; 8]);
    items.extend([1, 0, 0, 0, 5]);
    assert_eq!(
        decode_changes(&items),
        Err(DecodeError::BadTag { what: "diff item", tag: 5 })
    );
}

#[test]
fn changes_render_as_lines() {
    let mut changes = expected();
    changes.push(Change::ListInsert {
        path: path(&["l"]),
        index: 0,
        items: vec![SeqItem::Scalar(Scalar::Null), SeqItem::Composite(ElementKind::XmlFragment)],
    });
    changes.push(Change::TextInsert { path: path(&["t"]), index: 3, text: "a\"b\n".to_string() });
    changes.push(Change::Added { path: vec![9], kind: ElementKind::Text });
    changes.push(Change::Added {
        path: encode_path(&[vec![b'k', 0xff]]),
        kind: ElementKind::Register,
    });
    assert_eq!(
        render(&changes),
        vec![
            "+ /a (map)",
            "~ /b: 1 -> 2",
            "~ /c: 1 -> 5",
            "- /gone (scalar)",
            "- /l[1]: 1, 2",
            "+ /l[2]: true",
            "~ /m/x: 1 -> <3 bytes>",
            "- /t[4]: \"o\"",
            "+ /t[0]: \"o\"",
            "+ /l[0]: null, <xmlFragment>",
            "+ /t[3]: \"a\\\"b\\n\"",
            "+ <bad path> (text)",
            "+ /k\u{fffd} (register)",
        ]
    );
}

#[test]
fn an_attribute_of_a_child_shows_in_a_diff() {
    let mut a = Document::new(cid(1));
    let mut child = ElementId::from_bytes([0; 16]);
    let ops = a.transact(|tx| {
        let mut frag = tx.xml_fragment(b"doc");
        let mut children = frag.children();
        let mut p = children.insert_element(0, b"p");
        p.attrs().set(b"id", Scalar::Int(1));
        child = p.id();
    });
    let mut b = Document::new(cid(2));
    for op in &ops {
        b.apply(op);
    }
    assert!(diff(&a, &b).is_empty());
    let set = Op::new(
        OpId { client: cid(9), seq: 1 },
        Stamp { lamport: 1000, client: cid(9), offset: 0 },
        XmlElement::attrs_id(child),
        OpKind::MapSet { key: b"id".to_vec(), value: Scalar::Int(2) },
    );
    assert!(b.apply(&set));
    let at = encode_path(&[b"doc".to_vec(), item(born(&ops)[0]), b"id".to_vec()]);
    assert_eq!(
        diff(&a, &b),
        vec![Change::Value { path: at, old: Scalar::Int(1), new: Scalar::Int(2) }]
    );
}

/// The segment of an item's path: its stamp.
fn item(s: Stamp) -> Vec<u8> {
    let mut b = s.lamport.to_le_bytes().to_vec();
    b.extend_from_slice(&s.client.as_bytes());
    b
}

/// The stamps that children were inserted at.
fn born(ops: &[Op]) -> Vec<Stamp> {
    let mut out = Vec::new();
    for op in ops {
        if matches!(op.kind, OpKind::XmlInsertChild { .. }) {
            out.push(op.stamp);
        }
    }
    out
}

#[test]
fn siblings_diff_under_paths_of_their_own() {
    let mut a = Document::new(cid(1));
    let mut p = ElementId::from_bytes([0; 16]);
    let mut q = p;
    let ops = a.transact(|tx| {
        let mut frag = tx.xml_fragment(b"doc");
        let mut children = frag.children();
        p = children.insert_element(0, b"p").id();
        let mut second = children.insert_element(1, b"q");
        second.children().insert_element(0, b"r");
        q = second.id();
    });
    let mut b = Document::new(cid(2));
    for op in &ops {
        b.apply(op);
    }
    let at = born(&ops);
    let add = Op::new(
        OpId { client: cid(9), seq: 1 },
        Stamp { lamport: 1000, client: cid(9), offset: 0 },
        XmlElement::children_id(p),
        OpKind::XmlInsertChild {
            tag: Some(b"s".to_vec()),
            anchor: Anchor { parent: None, side: Side::Right },
        },
    );
    let drop = Op::new(
        OpId { client: cid(9), seq: 2 },
        Stamp { lamport: 1001, client: cid(9), offset: 0 },
        XmlElement::children_id(q),
        OpKind::ListDelete { id: at[2] },
    );
    assert!(b.apply(&add));
    assert!(b.apply(&drop));
    let under = |s: Stamp| encode_path(&[b"doc".to_vec(), item(s)]);
    let one = vec![SeqItem::Composite(ElementKind::XmlElement)];
    assert_eq!(
        diff(&a, &b),
        vec![
            Change::ListInsert { path: under(at[0]), index: 0, items: one.clone() },
            Change::ListDelete { path: under(at[1]), index: 0, items: one.clone() },
        ]
    );
    assert_eq!(
        diff(&b, &a),
        vec![
            Change::ListDelete { path: under(at[0]), index: 0, items: one.clone() },
            Change::ListInsert { path: under(at[1]), index: 0, items: one },
        ]
    );
}

#[test]
fn what_goes_is_reported_before_what_comes() {
    let mut a = Document::new(cid(1));
    let ops = a.transact(|tx| {
        let mut l = tx.list(b"l");
        l.insert(0, Scalar::Int(0));
        l.insert(1, Scalar::Int(1));
    });
    let mut b = Document::new(cid(2));
    for op in &ops {
        b.apply(op);
    }
    b.transact(|tx| {
        let mut l = tx.list(b"l");
        l.delete(1);
        l.insert(0, Scalar::Int(7));
    });
    assert_eq!(
        diff(&a, &b),
        vec![
            Change::ListDelete {
                path: path(&["l"]),
                index: 1,
                items: vec![SeqItem::Scalar(Scalar::Int(1))],
            },
            Change::ListInsert {
                path: path(&["l"]),
                index: 0,
                items: vec![SeqItem::Scalar(Scalar::Int(7))],
            },
        ]
    );
}

fn mirrored(c: &Change) -> Change {
    match c {
        Change::Added { path, kind } => Change::Removed { path: path.clone(), kind: *kind },
        Change::Removed { path, kind } => Change::Added { path: path.clone(), kind: *kind },
        Change::Value { path, old, new } => {
            Change::Value { path: path.clone(), old: new.clone(), new: old.clone() }
        }
        Change::Counter { path, old, new } => {
            Change::Counter { path: path.clone(), old: *new, new: *old }
        }
        Change::ListInsert { path, index, items } => {
            Change::ListDelete { path: path.clone(), index: *index, items: items.clone() }
        }
        Change::ListDelete { path, index, items } => {
            Change::ListInsert { path: path.clone(), index: *index, items: items.clone() }
        }
        Change::TextInsert { path, index, text } => {
            Change::TextDelete { path: path.clone(), index: *index, text: text.clone() }
        }
        Change::TextDelete { path, index, text } => {
            Change::TextInsert { path: path.clone(), index: *index, text: text.clone() }
        }
    }
}

#[test]
fn swapping_the_sides_mirrors_each_change() {
    let (a, b) = pair();
    let there = diff(&a, &b);
    let back = diff(&b, &a);
    assert_eq!(there.len(), back.len());
    for c in &there {
        assert!(back.contains(&mirrored(c)));
    }
}

#[test]
fn a_change_list_has_one_form() {
    let bytes = encode_changes(&expected());
    let read = decode_changes(&bytes).unwrap();
    assert_eq!(encode_changes(&read), bytes);
}
