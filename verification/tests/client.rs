//! A client's session with a server.

use crdtsync_core::changes::{encode_changes, Change};
use crdtsync_core::client::{ClientError, ClientSession, Redirect};
use crdtsync_core::clientid::ClientId;
use crdtsync_core::doc::Document;
use crdtsync_core::element::Element;
use crdtsync_core::elementid::ElementKind;
use crdtsync_core::op::Op;
use crdtsync_core::protocol::{BranchInfo, Channel, DiffKind, ErrorCode, Message};
use crdtsync_core::scalar::Scalar;

fn cid(b: u8) -> ClientId {
    ClientId::from_bytes([b; 16])
}

fn joined() -> (ClientSession, Channel) {
    let mut s = ClientSession::new(cid(1));
    let (channel, _) = s.subscribe(b"room");
    (s, channel)
}

fn server_ops() -> Vec<Op> {
    Document::new(cid(2)).transact(|tx| {
        tx.set(b"x", Scalar::Int(1));
        tx.set(b"y", Scalar::Int(2));
    })
}

fn outbox(s: &ClientSession, channel: Channel) -> Vec<u64> {
    match s.resend(channel) {
        Some(Message::Ops { ops, .. }) => ops.iter().map(|op| op.id.seq).collect(),
        None => vec![],
        other => panic!("{other:?}"),
    }
}

#[test]
fn a_session_opens_and_names_its_app() {
    let mut s = ClientSession::new(cid(1));
    assert_eq!(
        s.hello(),
        Message::Hello { client: cid(1), app_id: vec![], schema_version: 0 }
    );
    s.declare_app(b"app", 3);
    assert_eq!((s.app_id(), s.schema_version()), (b"app".as_slice(), 3));
    assert_eq!(
        s.hello(),
        Message::Hello { client: cid(1), app_id: b"app".to_vec(), schema_version: 3 }
    );
    assert_eq!(s.auth(b"cred"), Message::Auth { credential: b"cred".to_vec() });
    assert_eq!(s.actor(), None);
    s.receive(Message::AuthOk { actor: b"ann".to_vec() }).unwrap();
    assert_eq!(s.actor(), Some(b"ann".as_slice()));
    assert_eq!((s.active_schema_version(), s.active_schema()), (None, None));
    s.receive(Message::SchemaAdvert { schema_version: 8, schema: vec![1] }).unwrap();
    assert_eq!((s.active_schema_version(), s.active_schema()), (Some(8), Some([1u8].as_slice())));
}

#[test]
fn each_subscription_has_a_channel_of_its_own() {
    let mut s = ClientSession::new(cid(1));
    let (a, m) = s.subscribe(b"room");
    assert_eq!(
        m,
        Message::Subscribe {
            channel: a,
            room: b"room".to_vec(),
            branch: vec![],
            zone: vec![],
            last_seen_seq: 0,
        }
    );
    let (b, _) = s.subscribe_branch(b"room", b"draft");
    let (c, _) = s.subscribe_zone(b"room", b"z");
    assert!(a != b && b != c);
    assert_eq!(s.branch(b), Some(b"draft".as_slice()));
    assert_eq!(s.zone(c), Some(b"z".as_slice()));
    assert_eq!(s.room(c), Some(b"room".as_slice()));
    assert_eq!(s.unsubscribe(b), Some(Message::Unsubscribe { channel: b }));
    assert_eq!(s.unsubscribe(b), None);
    assert_eq!(s.resume(b), None);
    assert!(s.document(a).is_some() && s.document(b).is_none());
}

#[test]
fn a_delta_advances_the_seen_sequence_by_its_length() {
    let (mut s, ch) = joined();
    let ops = server_ops();
    s.receive(Message::Ops { channel: ch, ops: ops.clone() }).unwrap();
    s.receive(Message::Ops { channel: ch, ops }).unwrap();
    assert_eq!(s.last_seen_seq(ch), Some(4));
    let d = s.document(ch).unwrap();
    assert_eq!(d.get(b"y"), Some(Element::Scalar(Scalar::Int(2))));
    match s.resume(ch) {
        Some(Message::Subscribe { last_seen_seq, .. }) => assert_eq!(last_seen_seq, 4),
        other => panic!("{other:?}"),
    }
}

#[test]
fn authored_ops_wait_until_acknowledged() {
    let (mut s, ch) = joined();
    assert_eq!(s.resend(ch), None);
    let sent = s.edit(ch, |tx| {
        tx.set(b"a", Scalar::Int(1));
        tx.set(b"b", Scalar::Int(2));
        tx.set(b"c", Scalar::Int(3));
    });
    assert!(matches!(sent, Some(Message::Ops { .. })));
    assert_eq!(s.outbox_len(ch), 3);
    assert_eq!(outbox(&s, ch), vec![0, 1, 2]);
    assert_eq!(s.last_seen_seq(ch), Some(0));
    s.receive(Message::Accepted { channel: ch, through: 0 }).unwrap();
    s.receive(Message::Accepted { channel: ch, through: 0 }).unwrap();
    assert_eq!(outbox(&s, ch), vec![1, 2]);
    s.receive(Message::OpsRejected { channel: ch, seqs: vec![2], reason: ErrorCode(4) }).unwrap();
    assert_eq!(outbox(&s, ch), vec![1]);
    let rejected = s.take_rejected();
    assert_eq!(rejected.len(), 1);
    assert_eq!((rejected[0].channel, rejected[0].reason), (ch, ErrorCode(4)));
    assert_eq!(rejected[0].ops.len(), 1);
    assert_eq!(rejected[0].ops[0].id.seq, 2);
    assert!(s.take_rejected().is_empty());
}

#[test]
fn an_atomic_edit_is_one_group() {
    let (mut s, ch) = joined();
    match s.atomic_edit(ch, |tx| {
        tx.set(b"a", Scalar::Int(1));
        tx.set(b"b", Scalar::Int(2));
    }) {
        Some(Message::Ops { ops, .. }) => {
            assert_eq!(ops.len(), 2);
            assert_eq!(ops[0].tx.unwrap().count, 2);
        }
        other => panic!("{other:?}"),
    }
    assert_eq!(s.begin_atomic(ch), Some(()));
    match s.edit(ch, |tx| tx.set(b"c", Scalar::Int(3))) {
        Some(Message::Ops { ops, .. }) => assert!(ops.is_empty()),
        other => panic!("{other:?}"),
    }
    match s.commit_atomic(ch) {
        Some(Message::Ops { ops, .. }) => assert_eq!(ops.len(), 1),
        other => panic!("{other:?}"),
    }
    assert_eq!(s.outbox_len(ch), 3);
    assert_eq!(s.begin_atomic(Channel(9)), None);
    assert_eq!(s.edit(Channel(9), |tx| tx.set(b"c", Scalar::Int(3))), None);
}

#[test]
fn a_snapshot_replaces_the_replica_and_keeps_the_author() {
    let (mut s, ch) = joined();
    s.edit(ch, |tx| tx.set(b"mine", Scalar::Int(1)));
    let mut server = Document::new(cid(2));
    server.transact(|tx| tx.set(b"theirs", Scalar::Int(2)));
    let state = server.encode_state();
    s.receive(Message::Snapshot { channel: ch, seq: 40, state }).unwrap();
    let d = s.document(ch).unwrap();
    assert_eq!(d.client(), cid(1));
    assert_eq!(d.next_seq(), 1);
    assert_eq!(d.get(b"theirs"), Some(Element::Scalar(Scalar::Int(2))));
    assert_eq!(s.last_seen_seq(ch), Some(40));
    assert_eq!(s.outbox_len(ch), 1);
    assert_eq!(
        s.receive(Message::Snapshot { channel: ch, seq: 41, state: vec![1] }),
        Err(ClientError::BadSnapshot)
    );
    assert_eq!(s.last_seen_seq(ch), Some(40));
}

#[test]
fn awareness_is_kept_by_actor_and_key() {
    let (mut s, ch) = joined();
    let update = |actor: &[u8], key: &[u8], value: &[u8]| Message::AwarenessUpdate {
        channel: ch,
        actor: actor.to_vec(),
        key: key.to_vec(),
        value: value.to_vec(),
    };
    s.receive(update(b"ann", b"cursor", b"1")).unwrap();
    s.receive(update(b"ann", b"cursor", b"2")).unwrap();
    s.receive(update(b"ann", b"name", b"A")).unwrap();
    s.receive(update(b"bob", b"cursor", b"3")).unwrap();
    assert_eq!(s.awareness_len(ch), 3);
    assert_eq!(s.awareness(ch, b"ann", b"cursor"), Some(b"2".as_slice()));
    s.receive(Message::AwarenessClearKey {
        channel: ch,
        actor: b"ann".to_vec(),
        key: b"name".to_vec(),
    })
    .unwrap();
    assert_eq!(s.awareness(ch, b"ann", b"name"), None);
    s.receive(Message::AwarenessClear { channel: ch, actor: b"ann".to_vec() }).unwrap();
    assert_eq!(s.awareness_len(ch), 1);
    assert_eq!(s.awareness(ch, b"bob", b"cursor"), Some(b"3".as_slice()));
    assert_eq!(
        s.set_awareness(ch, b"k", b"v"),
        Some(Message::AwarenessSet { channel: ch, key: b"k".to_vec(), value: b"v".to_vec() })
    );
    assert_eq!(s.set_awareness(Channel(7), b"k", b"v"), None);
}

#[test]
fn versions_branches_diffs_and_clones_are_kept() {
    let (mut s, ch) = joined();
    assert_eq!(
        s.create_version(ch, b"v1"),
        Some(Message::VersionCreate { channel: ch, name: b"v1".to_vec() })
    );
    assert_eq!(
        s.rename_version(ch, b"v1", b"v2"),
        Some(Message::VersionRename { channel: ch, from: b"v1".to_vec(), to: b"v2".to_vec() })
    );
    assert!(s.delete_version(Channel(9), b"v1").is_none());
    assert_eq!(s.list_versions(ch), Some(Message::VersionList { channel: ch }));
    assert!(s.fetch_version(ch, b"v1").is_some());
    s.receive(Message::Versions { channel: ch, names: vec![b"v1".to_vec()] }).unwrap();
    assert_eq!(s.versions(ch), Some([b"v1".to_vec()].as_slice()));
    s.receive(Message::VersionState { channel: ch, name: b"v1".to_vec(), seq: 3, state: vec![7] })
        .unwrap();
    assert_eq!(s.version_state(ch, b"v1"), Some([7u8].as_slice()));
    assert_eq!(s.version_state(ch, b"v2"), None);

    assert_eq!(s.list_branches(b"room"), Message::BranchList { room: b"room".to_vec() });
    assert!(matches!(s.fork_branch(b"room", b"n", b"main"), Message::BranchFork { .. }));
    assert!(matches!(
        s.fork_branch_from_version(b"room", b"n", b"v1"),
        Message::BranchForkFromVersion { .. }
    ));
    assert!(matches!(s.restore_branch(b"room", b"n", b"v1"), Message::BranchRestore { .. }));
    assert!(matches!(s.publish_branch(b"room", b"pub"), Message::BranchPublish { .. }));
    assert!(matches!(s.delete_branch(b"room", b"n"), Message::BranchDelete { .. }));
    assert!(s.branches(b"room").is_none());
    let branch = || BranchInfo { name: b"main".to_vec(), active: true };
    s.receive(Message::Branches { room: b"room".to_vec(), branches: vec![branch()] }).unwrap();
    assert_eq!(s.branches(b"room"), Some([branch()].as_slice()));

    assert!(matches!(
        s.diff_query(b"room", DiffKind::Branches, b"a", b"b"),
        Message::DiffQuery { kind: DiffKind::Branches, .. }
    ));
    let changes = vec![Change::Added { path: vec![], kind: ElementKind::Text }];
    s.receive(Message::DiffResult { room: b"room".to_vec(), changes: encode_changes(&changes) })
        .unwrap();
    assert_eq!(s.diff(b"room"), Some(changes.as_slice()));
    assert_eq!(
        s.receive(Message::DiffResult { room: b"room".to_vec(), changes: vec![9] }),
        Err(ClientError::BadDiff)
    );
    assert_eq!(s.diff(b"room"), Some(changes.as_slice()));

    assert!(matches!(s.clone_room(b"a", b"b"), Message::CloneRoom { .. }));
    assert_eq!(s.clone_result(b"b"), None);
    s.receive(Message::CloneRoomResult { dst: b"b".to_vec(), created: true }).unwrap();
    assert_eq!(s.clone_result(b"b"), Some(true));

    s.receive(Message::Redirect { room: b"r".to_vec(), leader_addr: b"h:1".to_vec() }).unwrap();
    assert_eq!(
        s.take_redirects(),
        vec![Redirect { room: b"r".to_vec(), leader_addr: b"h:1".to_vec() }]
    );
    assert!(s.take_redirects().is_empty());
}

#[test]
fn frames_a_session_cannot_take_are_refused() {
    let (mut s, ch) = joined();
    assert_eq!(
        s.receive(Message::Accepted { channel: Channel(9), through: 1 }),
        Err(ClientError::UnknownChannel(Channel(9)))
    );
    assert_eq!(
        s.receive(Message::Error {
            channel: Some(ch),
            code: ErrorCode(2),
            message: "no".to_string(),
        }),
        Err(ClientError::Server { code: ErrorCode(2), message: "no".to_string() })
    );
    let unexpected = |s: &mut ClientSession, m: Message| match s.receive(m) {
        Err(ClientError::UnexpectedMessage(what)) => what,
        other => panic!("{other:?}"),
    };
    assert_eq!(unexpected(&mut s, Message::Ack { channel: ch, seq: 1 }), "server sent an ack");
    let hello = s.hello();
    assert_eq!(unexpected(&mut s, hello), "server sent hello");
    let auth = s.auth(b"c");
    assert_eq!(unexpected(&mut s, auth), "server sent auth");
    assert_eq!(
        unexpected(&mut s, Message::VersionList { channel: ch }),
        "server sent a version request"
    );
    assert_eq!(
        unexpected(&mut s, Message::BranchList { room: vec![] }),
        "server sent a branch or diff request"
    );
    assert_eq!(
        unexpected(&mut s, Message::CloneRoom { src: vec![], dst: vec![] }),
        "server sent a clone request"
    );
    assert_eq!(unexpected(&mut s, Message::Gossip { payload: vec![] }), "server sent a gossip");
    assert_eq!(s.outbox_len(ch), 0);
}

#[test]
fn a_message_touches_only_its_room() {
    let mut s = ClientSession::new(cid(1));
    let (a, _) = s.subscribe(b"a");
    let (b, _) = s.subscribe(b"b");
    s.receive(Message::Ops { channel: a, ops: server_ops() }).unwrap();
    assert_eq!(s.last_seen_seq(b), Some(0));
    assert_eq!(s.document(b).unwrap().get(b"x"), None);
    let ops = s.document_mut(b).unwrap().transact(|tx| tx.set(b"z", Scalar::Int(1)));
    assert!(s.enqueue_ops(b, ops).is_some());
    assert_eq!((s.outbox_len(a), s.outbox_len(b)), (0, 1));
}

#[test]
fn each_channel_authors_under_an_id_of_its_own() {
    let c = cid(1);
    let mut s = ClientSession::new(c);
    let (a, _) = s.subscribe(b"r");
    let (b, _) = s.subscribe(b"r");
    assert_eq!((a, b), (Channel(0), Channel(1)));
    assert_eq!(s.document(a).unwrap().client(), c);
    assert_eq!(s.document(b).unwrap().client(), c.for_channel(1));
    let snapshot = Document::new(cid(7)).encode_state();
    s.receive(Message::Snapshot { channel: b, seq: 3, state: snapshot }).unwrap();
    assert_eq!(s.document(b).unwrap().client(), c.for_channel(1));
}
