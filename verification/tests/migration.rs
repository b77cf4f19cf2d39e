//! JSON and schema migrations.

use crdtsync_core::clientid::ClientId;
use crdtsync_core::elementid::ElementId;
use crdtsync_core::json::{Json, JsonErrorKind, MAX_DEPTH};
use crdtsync_core::migration::{
    op_key, reachable_down, rewrite_down_along, rewrite_up_along, Compat, Migration,
    MigrationErrorKind, OpRewrite, Step,
};
use crdtsync_core::op::{Op, OpId, OpKind};
use crdtsync_core::scalar::Scalar;
use crdtsync_core::stamp::Stamp;

fn op(key: &str) -> Op {
    let client = ClientId::from_bytes([1; 16]);
    Op::new(
        OpId { client, seq: 1 },
        Stamp { lamport: 2, client, offset: 0 },
        ElementId::from_bytes([2; 16]),
        OpKind::MapSet { key: key.as_bytes().to_vec(), value: Scalar::Int(1) },
    )
}

fn edge(from: u32, steps: Vec<Step>) -> Migration {
    Migration { from, to: from + 1, steps }
}

fn rename(from: &str, to: &str) -> Step {
    Step::RenameField { ty: "Root".to_string(), from: from.to_string(), to: to.to_string() }
}

fn remove(field: &str) -> Step {
    Step::RemoveField { ty: "Root".to_string(), field: field.to_string() }
}

fn add(field: &str) -> Step {
    Step::AddField {
        ty: "Root".to_string(),
        field: field.to_string(),
        field_type: "Text".to_string(),
    }
}

fn kept_key(r: OpRewrite) -> Option<Vec<u8>> {
    match r {
        OpRewrite::Keep(op) => op_key(&op).map(|k| k.to_vec()),
        OpRewrite::Drop => None,
    }
}

#[test]
fn json_values_parse() {
    let j = Json::parse(" {\"a\": [1, -2, true, null, \"x\\u00e9\\ud83d\\ude00\\n\"], \"b\": 1.5} ")
        .unwrap();
    let a = j.get("a").unwrap().as_array().unwrap();
    assert_eq!(a[0].as_i64(), Some(1));
    assert_eq!(a[1].as_i64(), Some(-2));
    assert_eq!(a[2].as_bool(), Some(true));
    assert_eq!(a[3], Json::Null);
    assert_eq!(a[4].as_str(), Some("x\u{e9}\u{1f600}\n"));
    assert_eq!(j.get("b"), Some(&Json::Float("1.5".to_string())));
    assert_eq!(j.get("c"), None);
    assert_eq!(j.as_object().unwrap().len(), 2);
    assert_eq!(j.copy(), j);
}

#[test]
fn malformed_json_is_refused() {
    let kind = |s: &str| Json::parse(s).unwrap_err().kind;
    assert_eq!(kind("["), JsonErrorKind::UnexpectedEof);
    assert_eq!(kind("x"), JsonErrorKind::Unexpected);
    assert_eq!(kind("\"\\q\""), JsonErrorKind::BadEscape);
    assert_eq!(kind("01"), JsonErrorKind::BadNumber);
    assert_eq!(kind("\"\\ud800\""), JsonErrorKind::BadUnicode);
    assert_eq!(kind("{\"a\":1,\"a\":2}"), JsonErrorKind::DuplicateKey);
    assert_eq!(kind("1 2"), JsonErrorKind::TrailingBytes);
    assert_eq!(kind(&"[".repeat(MAX_DEPTH + 2)), JsonErrorKind::DepthLimit);
    let e = Json::parse("1 2").unwrap_err();
    assert_eq!(e.message(), "trailing bytes after value at byte 2");
}

#[test]
fn a_migration_parses() {
    let src = "{\"from\":1,\"to\":2,\"steps\":[{\"kind\":\"renameField\",\"type\":\"Root\",\
               \"from\":\"a\",\"to\":\"b\"}]}";
    match Migration::parse(src) {
        Ok(m) => {
            assert_eq!((m.from, m.to), (1, 2));
            assert_eq!(m.steps(), &[rename("a", "b")]);
        }
        Err(e) => panic!("{}", e.message()),
    }
}

#[test]
fn malformed_migrations_are_refused() {
    let kind = |s: &str| Migration::parse(s).unwrap_err().kind;
    assert_eq!(kind("{"), MigrationErrorKind::Json(JsonErrorKind::UnexpectedEof));
    assert_eq!(kind("[]"), MigrationErrorKind::NotAnObject);
    assert_eq!(kind("{}"), MigrationErrorKind::MissingField);
    assert_eq!(kind("{\"from\":\"1\",\"to\":2,\"steps\":[]}"), MigrationErrorKind::WrongType);
    assert_eq!(kind("{\"from\":1,\"to\":2,\"steps\":[],\"x\":1}"), MigrationErrorKind::UnknownField);
    assert_eq!(kind("{\"from\":1,\"to\":3,\"steps\":[]}"), MigrationErrorKind::NonContiguous);
    assert_eq!(kind("{\"from\":0,\"to\":1,\"steps\":[]}"), MigrationErrorKind::BadVersion);
    assert_eq!(
        kind("{\"from\":1,\"to\":2,\"steps\":[{\"kind\":\"explode\"}]}"),
        MigrationErrorKind::UnknownStepKind
    );
    assert_eq!(
        kind("{\"from\":1,\"to\":2,\"steps\":[{\"kind\":\"removeType\",\"name\":\"\"}]}"),
        MigrationErrorKind::EmptyName
    );
}

#[test]
fn a_step_has_an_inverse_exactly_when_it_is_compatible() {
    assert_eq!(add("a").compat(), Compat::BackCompatible);
    assert_eq!(rename("a", "b").compat(), Compat::Breaking);
    assert_eq!(remove("a").compat(), Compat::Breaking);
    assert_eq!(add("a").rewrite_down(&op("a")), Some(OpRewrite::Drop));
    assert_eq!(add("a").rewrite_down(&op("b")), Some(OpRewrite::Keep(op("b"))));
    assert_eq!(add("a").rewrite_up(&op("a")), OpRewrite::Keep(op("a")));
    assert!(remove("a").rewrite_down(&op("b")).is_none());
    let m = edge(1, vec![add("a"), remove("c")]);
    assert_eq!(m.compat(), Compat::Breaking);
    assert!(m.rewrite_down(&op("b")).is_none());
    assert!(!reachable_down(&[m]));
}

#[test]
fn a_rename_changes_only_the_key() {
    let m = edge(1, vec![rename("a", "b")]);
    match m.rewrite_up(&op("a")) {
        OpRewrite::Keep(moved) => {
            let mut want = op("b");
            want.id = op("a").id;
            assert_eq!(moved, want);
        }
        OpRewrite::Drop => panic!("dropped"),
    }
    assert_eq!(kept_key(m.rewrite_up(&op("z"))), Some(b"z".to_vec()));
    assert_eq!(kept_key(edge(1, vec![remove("a")]).rewrite_up(&op("a"))), None);
    assert_eq!(kept_key(edge(1, vec![add("q")]).rewrite_up(&op("a"))), Some(b"a".to_vec()));
}

#[test]
fn a_chain_of_edges_composes() {
    let edges = [edge(1, vec![rename("a", "b")]), edge(2, vec![rename("b", "c")])];
    assert_eq!(kept_key(rewrite_up_along(&edges, &op("a"))), Some(b"c".to_vec()));
    assert_eq!(rewrite_down_along(&edges, &op("c")), None);
    let added = [edge(1, vec![add("x")]), edge(2, vec![add("y")])];
    assert!(reachable_down(&added));
    assert_eq!(rewrite_down_along(&added, &op("x")), Some(OpRewrite::Drop));
    assert_eq!(rewrite_down_along(&added, &op("a")), Some(OpRewrite::Keep(op("a"))));
    assert_eq!(kept_key(rewrite_up_along(&[], &op("a"))), Some(b"a".to_vec()));
    let mut keyless = op("a");
    keyless.kind = OpKind::ListDelete { id: keyless.stamp };
    assert_eq!(rewrite_up_along(&edges, &keyless), OpRewrite::Keep(keyless.clone()));
}
