//! The messages a replica and a server exchange.

use crate::bytes::byte_strings;
use crate::clientid::ClientId;
use crate::op::{ops_view, Op, OpV};
use vstd::prelude::*;

verus! {

/// A subscription's number, assigned by the client that holds it.
#[derive(Clone, Copy, PartialEq, Eq, Debug, Structural)]
pub struct Channel(pub u32);

/// What kind of failure a server reports.
#[derive(Clone, Copy, PartialEq, Eq, Debug, Structural)]
pub struct ErrorCode(pub u16);

/// What the two sides of a diff query name.
#[derive(Clone, Copy, PartialEq, Eq, Debug, Structural)]
pub enum DiffKind {
    Versions,
    Branches,
}

/// A branch of a room as a server reports it.
#[derive(PartialEq, Eq, Debug)]
pub struct BranchInfo {
    pub name: Vec<u8>,
    /// Whether it is the one that edits go to.
    pub active: bool,
}

/// A branch, by value.
pub struct BranchInfoV {
    pub name: Seq<u8>,
    pub active: bool,
}

impl View for BranchInfo {
    type V = BranchInfoV;

    open spec fn view(&self) -> BranchInfoV {
        BranchInfoV { name: self.name@, active: self.active }
    }
}

pub open spec fn branches_view(b: Seq<BranchInfo>) -> Seq<BranchInfoV> {
    b.map_values(|x: BranchInfo| x@)
}

/// A message.
#[derive(PartialEq, Eq, Debug)]
pub enum Message {
    // from a client
    Hello { client: ClientId, app_id: Vec<u8>, schema_version: u32 },
    Auth { credential: Vec<u8> },
    Subscribe {
        channel: Channel,
        room: Vec<u8>,
        branch: Vec<u8>,
        zone: Vec<u8>,
        last_seen_seq: u64,
    },
    Unsubscribe { channel: Channel },
    Ack { channel: Channel, seq: u64 },
    AwarenessSet { channel: Channel, key: Vec<u8>, value: Vec<u8> },
    VersionCreate { channel: Channel, name: Vec<u8> },
    VersionRename { channel: Channel, from: Vec<u8>, to: Vec<u8> },
    VersionDelete { channel: Channel, name: Vec<u8> },
    VersionList { channel: Channel },
    VersionFetch { channel: Channel, name: Vec<u8> },
    BranchList { room: Vec<u8> },
    BranchFork { room: Vec<u8>, name: Vec<u8>, from_branch: Vec<u8> },
    BranchForkFromVersion { room: Vec<u8>, name: Vec<u8>, version: Vec<u8> },
    BranchRestore { room: Vec<u8>, name: Vec<u8>, version: Vec<u8> },
    BranchPublish { room: Vec<u8>, published: Vec<u8> },
    BranchDelete { room: Vec<u8>, name: Vec<u8> },
    DiffQuery { room: Vec<u8>, kind: DiffKind, a: Vec<u8>, b: Vec<u8> },
    CloneRoom { src: Vec<u8>, dst: Vec<u8> },
    // either way
    Ops { channel: Channel, ops: Vec<Op> },
    // from a server
    Snapshot { channel: Channel, seq: u64, state: Vec<u8> },
    AuthOk { actor: Vec<u8> },
    SchemaAdvert { schema_version: u32, schema: Vec<u8> },
    AwarenessUpdate { channel: Channel, actor: Vec<u8>, key: Vec<u8>, value: Vec<u8> },
    AwarenessClear { channel: Channel, actor: Vec<u8> },
    AwarenessClearKey { channel: Channel, actor: Vec<u8>, key: Vec<u8> },
    Error { channel: Option<Channel>, code: ErrorCode, message: String },
    Accepted { channel: Channel, through: u64 },
    OpsRejected { channel: Channel, seqs: Vec<u64>, reason: ErrorCode },
    Redirect { room: Vec<u8>, leader_addr: Vec<u8> },
    Versions { channel: Channel, names: Vec<Vec<u8>> },
    VersionState { channel: Channel, name: Vec<u8>, seq: u64, state: Vec<u8> },
    Branches { room: Vec<u8>, branches: Vec<BranchInfo> },
    DiffResult { room: Vec<u8>, changes: Vec<u8> },
    CloneRoomResult { dst: Vec<u8>, created: bool },
    // between nodes
    Replicate { payload: Vec<u8> },
    ReplicaAck { payload: Vec<u8> },
    Gossip { payload: Vec<u8> },
}

/// A message, by value.
pub enum MessageV {
    Hello { client: ClientId, app_id: Seq<u8>, schema_version: u32 },
    Auth { credential: Seq<u8> },
    Subscribe {
        channel: Channel,
        room: Seq<u8>,
        branch: Seq<u8>,
        zone: Seq<u8>,
        last_seen_seq: u64,
    },
    Unsubscribe { channel: Channel },
    Ack { channel: Channel, seq: u64 },
    AwarenessSet { channel: Channel, key: Seq<u8>, value: Seq<u8> },
    VersionCreate { channel: Channel, name: Seq<u8> },
    VersionRename { channel: Channel, from: Seq<u8>, to: Seq<u8> },
    VersionDelete { channel: Channel, name: Seq<u8> },
    VersionList { channel: Channel },
    VersionFetch { channel: Channel, name: Seq<u8> },
    BranchList { room: Seq<u8> },
    BranchFork { room: Seq<u8>, name: Seq<u8>, from_branch: Seq<u8> },
    BranchForkFromVersion { room: Seq<u8>, name: Seq<u8>, version: Seq<u8> },
    BranchRestore { room: Seq<u8>, name: Seq<u8>, version: Seq<u8> },
    BranchPublish { room: Seq<u8>, published: Seq<u8> },
    BranchDelete { room: Seq<u8>, name: Seq<u8> },
    DiffQuery { room: Seq<u8>, kind: DiffKind, a: Seq<u8>, b: Seq<u8> },
    CloneRoom { src: Seq<u8>, dst: Seq<u8> },
    Ops { channel: Channel, ops: Seq<OpV> },
    Snapshot { channel: Channel, seq: u64, state: Seq<u8> },
    AuthOk { actor: Seq<u8> },
    SchemaAdvert { schema_version: u32, schema: Seq<u8> },
    AwarenessUpdate { channel: Channel, actor: Seq<u8>, key: Seq<u8>, value: Seq<u8> },
    AwarenessClear { channel: Channel, actor: Seq<u8> },
    AwarenessClearKey { channel: Channel, actor: Seq<u8>, key: Seq<u8> },
    Error { channel: Option<Channel>, code: ErrorCode, message: Seq<char> },
    Accepted { channel: Channel, through: u64 },
    OpsRejected { channel: Channel, seqs: Seq<u64>, reason: ErrorCode },
    Redirect { room: Seq<u8>, leader_addr: Seq<u8> },
    Versions { channel: Channel, names: Seq<Seq<u8>> },
    VersionState { channel: Channel, name: Seq<u8>, seq: u64, state: Seq<u8> },
    Branches { room: Seq<u8>, branches: Seq<BranchInfoV> },
    DiffResult { room: Seq<u8>, changes: Seq<u8> },
    CloneRoomResult { dst: Seq<u8>, created: bool },
    Replicate { payload: Seq<u8> },
    ReplicaAck { payload: Seq<u8> },
    Gossip { payload: Seq<u8> },
}

impl View for Message {
    type V = MessageV;

    open spec fn view(&self) -> MessageV {
        match *self {
            Message::Hello { client, app_id, schema_version } => MessageV::Hello {
                client,
                app_id: app_id@,
                schema_version,
            },
            Message::Auth { credential } => MessageV::Auth { credential: credential@ },
            Message::Subscribe { channel, room, branch, zone, last_seen_seq } => {
                MessageV::Subscribe {
                    channel,
                    room: room@,
                    branch: branch@,
                    zone: zone@,
                    last_seen_seq,
                }
            },
            Message::Unsubscribe { channel } => MessageV::Unsubscribe { channel },
            Message::Ack { channel, seq } => MessageV::Ack { channel, seq },
            Message::AwarenessSet { channel, key, value } => MessageV::AwarenessSet {
                channel,
                key: key@,
                value: value@,
            },
            Message::VersionCreate { channel, name } => MessageV::VersionCreate {
                channel,
                name: name@,
            },
            Message::VersionRename { channel, from, to } => MessageV::VersionRename {
                channel,
                from: from@,
                to: to@,
            },
            Message::VersionDelete { channel, name } => MessageV::VersionDelete {
                channel,
                name: name@,
            },
            Message::VersionList { channel } => MessageV::VersionList { channel },
            Message::VersionFetch { channel, name } => MessageV::VersionFetch {
                channel,
                name: name@,
            },
            Message::BranchList { room } => MessageV::BranchList { room: room@ },
            Message::BranchFork { room, name, from_branch } => MessageV::BranchFork {
                room: room@,
                name: name@,
                from_branch: from_branch@,
            },
            Message::BranchForkFromVersion { room, name, version } => {
                MessageV::BranchForkFromVersion { room: room@, name: name@, version: version@ }
            },
            Message::BranchRestore { room, name, version } => MessageV::BranchRestore {
                room: room@,
                name: name@,
                version: version@,
            },
            Message::BranchPublish { room, published } => MessageV::BranchPublish {
                room: room@,
                published: published@,
            },
            Message::BranchDelete { room, name } => MessageV::BranchDelete {
                room: room@,
                name: name@,
            },
            Message::DiffQuery { room, kind, a, b } => MessageV::DiffQuery {
                room: room@,
                kind,
                a: a@,
                b: b@,
            },
            Message::CloneRoom { src, dst } => MessageV::CloneRoom { src: src@, dst: dst@ },
            Message::Ops { channel, ops } => MessageV::Ops { channel, ops: ops_view(ops@) },
            Message::Snapshot { channel, seq, state } => MessageV::Snapshot {
                channel,
                seq,
                state: state@,
            },
            Message::AuthOk { actor } => MessageV::AuthOk { actor: actor@ },
            Message::SchemaAdvert { schema_version, schema } => MessageV::SchemaAdvert {
                schema_version,
                schema: schema@,
            },
            Message::AwarenessUpdate { channel, actor, key, value } => MessageV::AwarenessUpdate {
                channel,
                actor: actor@,
                key: key@,
                value: value@,
            },
            Message::AwarenessClear { channel, actor } => MessageV::AwarenessClear {
                channel,
                actor: actor@,
            },
            Message::AwarenessClearKey { channel, actor, key } => MessageV::AwarenessClearKey {
                channel,
                actor: actor@,
                key: key@,
            },
            Message::Error { channel, code, message } => MessageV::Error {
                channel,
                code,
                message: message@,
            },
            Message::Accepted { channel, through } => MessageV::Accepted { channel, through },
            Message::OpsRejected { channel, seqs, reason } => MessageV::OpsRejected {
                channel,
                seqs: seqs@,
                reason,
            },
            Message::Redirect { room, leader_addr } => MessageV::Redirect {
                room: room@,
                leader_addr: leader_addr@,
            },
            Message::Versions { channel, names } => MessageV::Versions {
                channel,
                names: byte_strings(names@),
            },
            Message::VersionState { channel, name, seq, state } => MessageV::VersionState {
                channel,
                name: name@,
                seq,
                state: state@,
            },
            Message::Branches { room, branches } => MessageV::Branches {
                room: room@,
                branches: branches_view(branches@),
            },
            Message::DiffResult { room, changes } => MessageV::DiffResult {
                room: room@,
                changes: changes@,
            },
            Message::CloneRoomResult { dst, created } => MessageV::CloneRoomResult {
                dst: dst@,
                created,
            },
            Message::Replicate { payload } => MessageV::Replicate { payload: payload@ },
            Message::ReplicaAck { payload } => MessageV::ReplicaAck { payload: payload@ },
            Message::Gossip { payload } => MessageV::Gossip { payload: payload@ },
        }
    }
}

} // verus!
