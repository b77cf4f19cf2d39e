//! The replica's side of the protocol.
//!
//! A session opens with a hello and then holds several room subscriptions at once, each on
//! its own channel with its own replica and caught-up sequence. Subscribing draws the
//! server's catch-up: an op delta, or a whole-replica snapshot. Inbound frames route to a
//! room by their channel; a reconnect resumes each room from where it left off. Messages
//! in, replicas and messages out: the transport moves the bytes.

use crate::bytes::{byte_strings, bytes_eq, bytes_less, bytes_lt, lemma_bytes_lt_total,
    lemma_bytes_lt_trans, opt_bytes};
use crate::changes::{changes_view, decode_changes, parse_changes, Change, ChangeV};
use crate::clientid::ClientId;
use crate::doc::{DocV, Document};
use crate::format::exactly;
use crate::op::{ops_view, Op, OpV};
use crate::protocol::{
    branches_view, BranchInfo, BranchInfoV, Channel, ErrorCode, Message, MessageV,
};
use crate::snapshot::parse_state;
use crate::table::{
    index_of, lemma_entry, lemma_views_insert, lemma_views_remove, views, Key, Table,
};
use vstd::prelude::*;
use vstd::slice::slice_to_vec;

verus! {

/// Why an inbound message could not be folded in.
#[derive(PartialEq, Eq, Debug)]
pub enum ClientError {
    /// A frame that only travels to a server arrived from one.
    UnexpectedMessage(&'static str),
    /// A snapshot's bytes did not decode into a replica.
    BadSnapshot,
    /// A diff result's change list did not decode.
    BadDiff,
    /// A frame named a channel this session does not hold.
    UnknownChannel(Channel),
    /// The server reported a failure.
    Server { code: ErrorCode, message: String },
}

/// An error, by value.
pub enum ClientErrorV {
    UnexpectedMessage(&'static str),
    BadSnapshot,
    BadDiff,
    UnknownChannel(Channel),
    Server { code: ErrorCode, message: Seq<char> },
}

impl View for ClientError {
    type V = ClientErrorV;

    open spec fn view(&self) -> ClientErrorV {
        match *self {
            ClientError::UnexpectedMessage(m) => ClientErrorV::UnexpectedMessage(m),
            ClientError::BadSnapshot => ClientErrorV::BadSnapshot,
            ClientError::BadDiff => ClientErrorV::BadDiff,
            ClientError::UnknownChannel(c) => ClientErrorV::UnknownChannel(c),
            ClientError::Server { code, message } => ClientErrorV::Server {
                code,
                message: message@,
            },
        }
    }
}

/// A room whose leader is elsewhere, and where to reconnect.
#[derive(PartialEq, Eq, Debug)]
pub struct Redirect {
    pub room: Vec<u8>,
    pub leader_addr: Vec<u8>,
}

pub struct RedirectV {
    pub room: Seq<u8>,
    pub leader_addr: Seq<u8>,
}

impl View for Redirect {
    type V = RedirectV;

    open spec fn view(&self) -> RedirectV {
        RedirectV { room: self.room@, leader_addr: self.leader_addr@ }
    }
}

/// Authored ops that the server refused, with the reason.
#[derive(PartialEq, Eq, Debug)]
pub struct Rejected {
    pub channel: Channel,
    pub reason: ErrorCode,
    pub ops: Vec<Op>,
}

pub struct RejectedV {
    pub channel: Channel,
    pub reason: ErrorCode,
    pub ops: Seq<OpV>,
}

impl View for Rejected {
    type V = RejectedV;

    open spec fn view(&self) -> RejectedV {
        RejectedV { channel: self.channel, reason: self.reason, ops: ops_view(self.ops@) }
    }
}

/// Who published an awareness entry, and under which key.
#[derive(PartialEq, Eq, Debug)]
pub struct Presence {
    pub actor: Vec<u8>,
    pub key: Vec<u8>,
}

impl View for Presence {
    type V = (Seq<u8>, Seq<u8>);

    open spec fn view(&self) -> (Seq<u8>, Seq<u8>) {
        (self.actor@, self.key@)
    }
}

impl Key for Presence {
    open spec fn before(a: (Seq<u8>, Seq<u8>), b: (Seq<u8>, Seq<u8>)) -> bool {
        bytes_lt(a.0, b.0) || (a.0 == b.0 && bytes_lt(a.1, b.1))
    }

    proof fn before_total(a: (Seq<u8>, Seq<u8>), b: (Seq<u8>, Seq<u8>)) {
        lemma_bytes_lt_total(a.0, b.0);
        lemma_bytes_lt_total(a.1, b.1);
    }

    proof fn before_trans(
        a: (Seq<u8>, Seq<u8>),
        b: (Seq<u8>, Seq<u8>),
        c: (Seq<u8>, Seq<u8>),
    ) {
        if bytes_lt(a.0, b.0) && bytes_lt(b.0, c.0) {
            lemma_bytes_lt_trans(a.0, b.0, c.0);
        }
        if bytes_lt(a.1, b.1) && bytes_lt(b.1, c.1) {
            lemma_bytes_lt_trans(a.1, b.1, c.1);
        }
    }

    fn less(&self, other: &Self) -> (r: bool) {
        bytes_less(self.actor.as_slice(), other.actor.as_slice()) || (bytes_eq(
            self.actor.as_slice(),
            other.actor.as_slice(),
        ) && bytes_less(self.key.as_slice(), other.key.as_slice()))
    }
}

/// One subscribed room: its replica, its name, the branch and zone within it, how far it
/// has caught up, the authored ops not yet acknowledged, the peers' awareness entries and
/// the versions the server has told of.
pub struct Room {
    pub room: Vec<u8>,
    pub branch: Vec<u8>,
    pub zone: Vec<u8>,
    pub doc: Document,
    pub last_seen_seq: u64,
    pub outbox: Vec<Op>,
    pub awareness: Table<Presence, Vec<u8>>,
    pub version_names: Vec<Vec<u8>>,
    pub version_states: Table<Vec<u8>, (u64, Vec<u8>)>,
}

/// A room, by value.
#[verifier::ext_equal]
pub struct RoomV {
    pub room: Seq<u8>,
    pub branch: Seq<u8>,
    pub zone: Seq<u8>,
    pub doc: DocV,
    pub last_seen_seq: u64,
    pub outbox: Seq<OpV>,
    pub awareness: Map<(Seq<u8>, Seq<u8>), Seq<u8>>,
    pub version_names: Seq<Seq<u8>>,
    pub version_states: Map<Seq<u8>, (u64, Seq<u8>)>,
}

impl View for Room {
    type V = RoomV;

    open spec fn view(&self) -> RoomV {
        RoomV {
            room: self.room@,
            branch: self.branch@,
            zone: self.zone@,
            doc: self.doc@,
            last_seen_seq: self.last_seen_seq,
            outbox: ops_view(self.outbox@),
            awareness: views(self.awareness@),
            version_names: byte_strings(self.version_names@),
            version_states: self.version_states@.map_values(|v: (u64, Vec<u8>)| (v.0, v.1@)),
        }
    }
}

impl Room {
    pub open spec fn wf(&self) -> bool {
        self.doc.wf() && self.awareness.wf() && self.version_states.wf()
    }
}

/// A replica's connection, with the rooms it has subscribed to.
pub struct ClientSession {
    pub client: ClientId,
    pub actor: Option<Vec<u8>>,
    pub app_id: Vec<u8>,
    pub schema_version: u32,
    /// The schema the server said it serves, and its version.
    pub active_schema: Option<(u32, Vec<u8>)>,
    pub rooms: Table<u32, Room>,
    pub next_channel: u32,
    pub rejected: Vec<Rejected>,
    pub redirects: Vec<Redirect>,
    /// The branches last reported for each room.
    pub branches: Table<Vec<u8>, Vec<BranchInfo>>,
    /// The diff last returned for each room.
    pub diffs: Table<Vec<u8>, Vec<Change>>,
    /// Whether the clone last answered for each destination made it.
    pub clone_results: Table<Vec<u8>, bool>,
}

/// A session, by value.
#[verifier::ext_equal]
pub struct SessionV {
    pub client: ClientId,
    pub actor: Option<Seq<u8>>,
    pub app_id: Seq<u8>,
    pub schema_version: u32,
    pub active_schema: Option<(u32, Seq<u8>)>,
    pub rooms: Map<u32, RoomV>,
    pub next_channel: u32,
    pub rejected: Seq<RejectedV>,
    pub redirects: Seq<RedirectV>,
    pub branches: Map<Seq<u8>, Seq<BranchInfoV>>,
    pub diffs: Map<Seq<u8>, Seq<ChangeV>>,
    pub clone_results: Map<Seq<u8>, bool>,
}

pub open spec fn opt_schema_bytes(s: Option<(u32, Vec<u8>)>) -> Option<(u32, Seq<u8>)> {
    match s {
        Some((v, b)) => Some((v, b@)),
        None => None,
    }
}

impl View for ClientSession {
    type V = SessionV;

    open spec fn view(&self) -> SessionV {
        SessionV {
            client: self.client,
            actor: opt_bytes(self.actor),
            app_id: self.app_id@,
            schema_version: self.schema_version,
            active_schema: opt_schema_bytes(self.active_schema),
            rooms: views(self.rooms@),
            next_channel: self.next_channel,
            rejected: self.rejected@.map_values(|r: Rejected| r@),
            redirects: self.redirects@.map_values(|r: Redirect| r@),
            branches: self.branches@.map_values(|b: Vec<BranchInfo>| branches_view(b@)),
            diffs: self.diffs@.map_values(|c: Vec<Change>| changes_view(c@)),
            clone_results: self.clone_results@,
        }
    }
}

impl ClientSession {
    pub open spec fn wf(&self) -> bool {
        &&& self.rooms.wf()
        &&& self.branches.wf()
        &&& self.diffs.wf()
        &&& self.clone_results.wf()
        &&& forall|c: u32| #[trigger] self.rooms@.dom().contains(c) ==> self.rooms@[c].wf()
    }
}

// --- what a session does ---

/// A room just subscribed to.
pub open spec fn fresh_room(
    client: ClientId,
    room: Seq<u8>,
    branch: Seq<u8>,
    zone: Seq<u8>,
) -> RoomV {
    RoomV {
        room,
        branch,
        zone,
        doc: DocV::empty(client),
        last_seen_seq: 0,
        outbox: Seq::empty(),
        awareness: Map::empty(),
        version_names: Seq::empty(),
        version_states: Map::empty(),
    }
}

/// A replica after some ops, in order.
pub open spec fn with_ops(d: DocV, ops: Seq<OpV>) -> DocV
    decreases ops.len(),
{
    if ops.len() == 0 {
        d
    } else {
        with_ops(d, ops.drop_last()).with_op(ops.last())
    }
}

/// The ops above an acknowledged sequence.
pub open spec fn ops_after(ops: Seq<OpV>, through: u64) -> Seq<OpV>
    decreases ops.len(),
{
    if ops.len() == 0 {
        Seq::empty()
    } else {
        let rest = ops_after(ops.drop_last(), through);
        if ops.last().id.seq > through {
            rest.push(ops.last())
        } else {
            rest
        }
    }
}

/// The ops whose sequences are named, or those whose are not.
pub open spec fn ops_named(ops: Seq<OpV>, seqs: Seq<u64>, named: bool) -> Seq<OpV>
    decreases ops.len(),
{
    if ops.len() == 0 {
        Seq::empty()
    } else {
        let rest = ops_named(ops.drop_last(), seqs, named);
        if seqs.contains(ops.last().id.seq) == named {
            rest.push(ops.last())
        } else {
            rest
        }
    }
}

/// The awareness entries of every actor but one.
pub open spec fn without_actor(
    m: Map<(Seq<u8>, Seq<u8>), Seq<u8>>,
    actor: Seq<u8>,
) -> Map<(Seq<u8>, Seq<u8>), Seq<u8>> {
    m.restrict(Set::new(|k: (Seq<u8>, Seq<u8>)| k.0 != actor))
}

impl SessionV {
    pub open spec fn holds(self, channel: Channel) -> bool {
        self.rooms.dom().contains(channel.0)
    }

    /// This session with one room changed.
    pub open spec fn with_room(self, channel: Channel, room: RoomV) -> SessionV {
        SessionV { rooms: self.rooms.insert(channel.0, room), ..self }
    }

    /// What a held room becomes, or that the channel is not held.
    pub open spec fn routed(self, channel: Channel, room: RoomV) -> Result<SessionV, ClientErrorV> {
        if self.holds(channel) {
            Ok(self.with_room(channel, room))
        } else {
            Err(ClientErrorV::UnknownChannel(channel))
        }
    }

    /// What one server message does to this session.
    #[verifier::opaque]
    pub open spec fn received(self, msg: MessageV) -> Result<SessionV, ClientErrorV> {
        match msg {
            MessageV::Ops { channel, ops } => {
                let r = self.rooms[channel.0];
                self.routed(
                    channel,
                    RoomV {
                        doc: with_ops(r.doc, ops),
                        last_seen_seq: (r.last_seen_seq + ops.len()) as u64,
                        ..r
                    },
                )
            },
            MessageV::Snapshot { channel, seq, state } => if !self.holds(channel) {
                Err(ClientErrorV::UnknownChannel(channel))
            } else {
                let r = self.rooms[channel.0];
                match exactly(parse_state(state)) {
                    Ok(d) => Ok(
                        self.with_room(
                            channel,
                            RoomV {
                                doc: DocV {
                                    client: self.client.on_channel(channel.0),
                                    seq: r.doc.free_seq(r.doc.seq),
                                    ..d
                                },
                                last_seen_seq: seq,
                                ..r
                            },
                        ),
                    ),
                    Err(_) => Err(ClientErrorV::BadSnapshot),
                }
            },
            MessageV::AuthOk { actor } => Ok(SessionV { actor: Some(actor), ..self }),
            MessageV::SchemaAdvert { schema_version, schema } => Ok(
                SessionV { active_schema: Some((schema_version, schema)), ..self },
            ),
            MessageV::AwarenessUpdate { channel, actor, key, value } => {
                let r = self.rooms[channel.0];
                self.routed(
                    channel,
                    RoomV { awareness: r.awareness.insert((actor, key), value), ..r },
                )
            },
            MessageV::AwarenessClear { channel, actor } => {
                let r = self.rooms[channel.0];
                self.routed(channel, RoomV { awareness: without_actor(r.awareness, actor), ..r })
            },
            MessageV::AwarenessClearKey { channel, actor, key } => {
                let r = self.rooms[channel.0];
                self.routed(channel, RoomV { awareness: r.awareness.remove((actor, key)), ..r })
            },
            MessageV::Error { channel, code, message } => Err(
                ClientErrorV::Server { code, message },
            ),
            MessageV::Accepted { channel, through } => {
                let r = self.rooms[channel.0];
                self.routed(channel, RoomV { outbox: ops_after(r.outbox, through), ..r })
            },
            MessageV::OpsRejected { channel, seqs, reason } => if !self.holds(channel) {
                Err(ClientErrorV::UnknownChannel(channel))
            } else {
                let r = self.rooms[channel.0];
                let s = self.with_room(
                    channel,
                    RoomV { outbox: ops_named(r.outbox, seqs, false), ..r },
                );
                Ok(
                    SessionV {
                        rejected: s.rejected.push(
                            RejectedV { channel, reason, ops: ops_named(r.outbox, seqs, true) },
                        ),
                        ..s
                    },
                )
            },
            MessageV::Redirect { room, leader_addr } => Ok(
                SessionV {
                    redirects: self.redirects.push(RedirectV { room, leader_addr }),
                    ..self
                },
            ),
            MessageV::Versions { channel, names } => {
                let r = self.rooms[channel.0];
                self.routed(channel, RoomV { version_names: names, ..r })
            },
            MessageV::VersionState { channel, name, seq, state } => {
                let r = self.rooms[channel.0];
                self.routed(
                    channel,
                    RoomV { version_states: r.version_states.insert(name, (seq, state)), ..r },
                )
            },
            MessageV::Branches { room, branches } => Ok(
                SessionV { branches: self.branches.insert(room, branches), ..self },
            ),
            MessageV::DiffResult { room, changes } => match parse_changes(changes) {
                Ok(c) => Ok(SessionV { diffs: self.diffs.insert(room, c), ..self }),
                Err(_) => Err(ClientErrorV::BadDiff),
            },
            MessageV::CloneRoomResult { dst, created } => Ok(
                SessionV { clone_results: self.clone_results.insert(dst, created), ..self },
            ),
            _ => Err(ClientErrorV::UnexpectedMessage(unexpected(msg))),
        }
    }
}

/// What is wrong with a message that a server never sends.
pub open spec fn unexpected(msg: MessageV) -> &'static str {
    match msg {
        MessageV::Ack { .. } => "server sent an ack",
        MessageV::Auth { .. } => "server sent auth",
        MessageV::AwarenessSet { .. } => "server sent an awareness set",
        MessageV::Hello { .. } => "server sent hello",
        MessageV::Subscribe { .. } => "server sent subscribe",
        MessageV::Unsubscribe { .. } => "server sent unsubscribe",
        MessageV::VersionCreate { .. } => "server sent a version request",
        MessageV::VersionRename { .. } => "server sent a version request",
        MessageV::VersionDelete { .. } => "server sent a version request",
        MessageV::VersionList { .. } => "server sent a version request",
        MessageV::VersionFetch { .. } => "server sent a version request",
        MessageV::CloneRoom { .. } => "server sent a clone request",
        MessageV::Replicate { .. } => "server sent a replicate",
        MessageV::ReplicaAck { .. } => "server sent a replica ack",
        MessageV::Gossip { .. } => "server sent a gossip",
        _ => "server sent a branch or diff request",
    }
}

// --- a room ---

impl Room {
    pub(crate) fn fresh(client: ClientId, room: &[u8], branch: &[u8], zone: &[u8]) -> (r: Room)
        ensures
            r.wf(),
            r@ == fresh_room(client, room@, branch@, zone@),
    {
        let r = Room {
            room: slice_to_vec(room),
            branch: slice_to_vec(branch),
            zone: slice_to_vec(zone),
            doc: Document::new(client),
            last_seen_seq: 0,
            outbox: Vec::new(),
            awareness: Table::new(),
            version_names: Vec::new(),
            version_states: Table::new(),
        };
        proof {
            assert(r@ =~= fresh_room(client, room@, branch@, zone@));
        }
        r
    }

    /// Fold in a delta. It is a contiguous run of the server's sequence, so the seen
    /// sequence advances by its length, even over ops the replica already has.
    fn apply_ops(&mut self, ops: &Vec<Op>)
        requires
            old(self).wf(),
            old(self).last_seen_seq + ops@.len() <= u64::MAX,
        ensures
            final(self).wf(),
            final(self)@ == (RoomV {
                doc: with_ops(old(self)@.doc, ops_view(ops@)),
                last_seen_seq: (old(self).last_seen_seq + ops@.len()) as u64,
                ..old(self)@
            }),
    {
        let ghost s = ops_view(ops@);
        let mut i: usize = 0;
        proof {
            assert(s.take(0) =~= Seq::empty());
            assert(self@ =~= (RoomV { doc: with_ops(old(self)@.doc, s.take(0)), ..old(self)@ }));
        }
        while i < ops.len()
            invariant
                self.wf(),
                s == ops_view(ops@),
                i <= ops@.len(),
                self.last_seen_seq == old(self).last_seen_seq,
                self@ == (RoomV { doc: with_ops(old(self)@.doc, s.take(i as int)), ..old(self)@ }),
            decreases ops@.len() - i,
        {
            proof {
                assert(s.take(i + 1).drop_last() =~= s.take(i as int));
                assert(s.take(i + 1).last() == ops@[i as int]@);
            }
            let _ = self.doc.apply(&ops[i]);
            i += 1;
            proof {
                assert(self@ =~= (RoomV {
                    doc: with_ops(old(self)@.doc, s.take(i as int)),
                    ..old(self)@
                }));
            }
        }
        proof {
            assert(s.take(i as int) =~= s);
        }
        self.last_seen_seq = self.last_seen_seq + ops.len() as u64;
        proof {
            assert(self@ =~= (RoomV {
                doc: with_ops(old(self)@.doc, s),
                last_seen_seq: (old(self).last_seen_seq + ops@.len()) as u64,
                ..old(self)@
            }));
        }
    }

    /// Adopt a server's state under this replica's own identity and op sequence. State
    /// that does not decode changes nothing.
    fn adopt(&mut self, client: ClientId, seq: u64, state: &[u8]) -> (ok: bool)
        requires
            old(self).wf(),
        ensures
            final(self).wf(),
            match exactly(parse_state(state@)) {
                Ok(d) => ok && final(self)@ == (RoomV {
                    doc: DocV {
                        client,
                        seq: old(self)@.doc.free_seq(old(self)@.doc.seq),
                        ..d
                    },
                    last_seen_seq: seq,
                    ..old(self)@
                }),
                Err(_) => !ok && *final(self) == *old(self),
            },
    {
        let next: u64 = self.doc.next_seq();
        match Document::decode_state_as(client, next, state) {
            Ok(doc) => {
                self.doc = doc;
                self.last_seen_seq = seq;
                proof {
                    assert(self@ =~= (RoomV {
                        doc: self.doc@,
                        last_seen_seq: seq,
                        ..old(self)@
                    }));
                }
                true
            },
            Err(_) => false,
        }
    }

    fn clear_actor(&mut self, actor: &[u8])
        requires
            old(self).wf(),
        ensures
            final(self).wf(),
            final(self)@ == (RoomV {
                awareness: without_actor(old(self)@.awareness, actor@),
                ..old(self)@
            }),
    {
        let mut next: Table<Presence, Vec<u8>> = Table::new();
        let ghost e = self.awareness.entries@;
        let ghost want = without_actor(self@.awareness, actor@);
        let mut i: usize = 0;
        while i < self.awareness.entries.len()
            invariant
                self.wf(),
                next.wf(),
                e == self.awareness.entries@,
                want == without_actor(self@.awareness, actor@),
                i <= e.len(),
                forall|k: (Seq<u8>, Seq<u8>)| #[trigger]
                    next@.dom().contains(k) ==> want.dom().contains(k) && next@[k]@ == want[k],
                forall|j: int|
                    0 <= j < i && want.dom().contains((#[trigger] e[j]).0@) ==> next@.dom().contains(
                        e[j].0@,
                    ),
            decreases e.len() - i,
        {
            proof {
                lemma_entry::<Presence, Vec<u8>>(e, i as int);
            }
            let (p, v) = &self.awareness.entries[i];
            if !bytes_eq(p.actor.as_slice(), actor) {
                let key = Presence {
                    actor: slice_to_vec(p.actor.as_slice()),
                    key: slice_to_vec(p.key.as_slice()),
                };
                next.insert(key, slice_to_vec(v.as_slice()));
            }
            i += 1;
        }
        proof {
            assert forall|k: (Seq<u8>, Seq<u8>)| want.dom().contains(k) implies next@.dom().contains(
                k,
            ) by {
                let j = index_of::<Presence, Vec<u8>>(e, k);
                assert(e[j].0@ == k);
            }
            assert(views(next@) =~= want);
        }
        self.awareness = next;
        proof {
            assert(self@ =~= (RoomV { awareness: want, ..old(self)@ }));
        }
    }

    fn set_presence(&mut self, actor: Vec<u8>, key: Vec<u8>, value: Vec<u8>)
        requires
            old(self).wf(),
        ensures
            final(self).wf(),
            final(self)@ == (RoomV {
                awareness: old(self)@.awareness.insert((actor@, key@), value@),
                ..old(self)@
            }),
    {
        broadcast use lemma_views_insert;

        self.awareness.insert(Presence { actor, key }, value);
        proof {
            assert(self@ =~= (RoomV {
                awareness: old(self)@.awareness.insert((actor@, key@), value@),
                ..old(self)@
            }));
        }
    }

    fn drop_presence(&mut self, actor: Vec<u8>, key: Vec<u8>)
        requires
            old(self).wf(),
        ensures
            final(self).wf(),
            final(self)@ == (RoomV {
                awareness: old(self)@.awareness.remove((actor@, key@)),
                ..old(self)@
            }),
    {
        broadcast use lemma_views_remove;

        self.awareness.remove(&Presence { actor, key });
        proof {
            assert(self@ =~= (RoomV {
                awareness: old(self)@.awareness.remove((actor@, key@)),
                ..old(self)@
            }));
        }
    }

    /// Drop every authored op the server has logged.
    fn acknowledge(&mut self, through: u64)
        requires
            old(self).wf(),
        ensures
            final(self).wf(),
            final(self)@ == (RoomV {
                outbox: ops_after(old(self)@.outbox, through),
                ..old(self)@
            }),
    {
        let mut kept: Vec<Op> = Vec::new();
        let ghost s = ops_view(self.outbox@);
        let mut i: usize = 0;
        proof {
            assert(s.take(0) =~= Seq::empty());
            assert(ops_view(kept@) =~= Seq::empty());
        }
        while i < self.outbox.len()
            invariant
                *self == *old(self),
                s == ops_view(self.outbox@),
                i <= self.outbox@.len(),
                ops_view(kept@) == ops_after(s.take(i as int), through),
            decreases self.outbox@.len() - i,
        {
            proof {
                assert(s.take(i + 1).drop_last() =~= s.take(i as int));
                assert(s.take(i + 1).last() == self.outbox@[i as int]@);
            }
            if self.outbox[i].id.seq > through {
                let ghost before = ops_view(kept@);
                let op = self.outbox[i].clone();
                let ghost v = op@;
                kept.push(op);
                proof {
                    assert(ops_view(kept@) =~= before.push(v));
                }
            }
            i += 1;
        }
        proof {
            assert(s.take(i as int) =~= s);
        }
        self.outbox = kept;
        proof {
            assert(self@ =~= (RoomV { outbox: ops_after(s, through), ..old(self)@ }));
        }
    }

    /// Take the ops the server refused out of the outbox, so that they are not resent.
    fn refuse(&mut self, seqs: &Vec<u64>) -> (out: Vec<Op>)
        requires
            old(self).wf(),
        ensures
            final(self).wf(),
            final(self)@ == (RoomV {
                outbox: ops_named(old(self)@.outbox, seqs@, false),
                ..old(self)@
            }),
            ops_view(out@) == ops_named(old(self)@.outbox, seqs@, true),
    {
        let mut kept: Vec<Op> = Vec::new();
        let mut out: Vec<Op> = Vec::new();
        let ghost s = ops_view(self.outbox@);
        let mut i: usize = 0;
        proof {
            assert(s.take(0) =~= Seq::empty());
            assert(ops_view(kept@) =~= Seq::empty());
            assert(ops_view(out@) =~= Seq::empty());
        }
        while i < self.outbox.len()
            invariant
                *self == *old(self),
                s == ops_view(self.outbox@),
                i <= self.outbox@.len(),
                ops_view(kept@) == ops_named(s.take(i as int), seqs@, false),
                ops_view(out@) == ops_named(s.take(i as int), seqs@, true),
            decreases self.outbox@.len() - i,
        {
            proof {
                assert(s.take(i + 1).drop_last() =~= s.take(i as int));
                assert(s.take(i + 1).last() == self.outbox@[i as int]@);
            }
            let op = self.outbox[i].clone();
            let ghost v = op@;
            if has_seq(seqs, op.id.seq) {
                let ghost before = ops_view(out@);
                out.push(op);
                proof {
                    assert(ops_view(out@) =~= before.push(v));
                }
            } else {
                let ghost before = ops_view(kept@);
                kept.push(op);
                proof {
                    assert(ops_view(kept@) =~= before.push(v));
                }
            }
            i += 1;
        }
        proof {
            assert(s.take(i as int) =~= s);
        }
        self.outbox = kept;
        proof {
            assert(self@ =~= (RoomV { outbox: ops_named(s, seqs@, false), ..old(self)@ }));
        }
        out
    }

    fn set_versions(&mut self, names: Vec<Vec<u8>>)
        requires
            old(self).wf(),
        ensures
            final(self).wf(),
            final(self)@ == (RoomV { version_names: byte_strings(names@), ..old(self)@ }),
    {
        self.version_names = names;
        proof {
            assert(self@ =~= (RoomV { version_names: byte_strings(names@), ..old(self)@ }));
        }
    }

    fn set_version_state(&mut self, name: Vec<u8>, seq: u64, state: Vec<u8>)
        requires
            old(self).wf(),
        ensures
            final(self).wf(),
            final(self)@ == (RoomV {
                version_states: old(self)@.version_states.insert(name@, (seq, state@)),
                ..old(self)@
            }),
    {
        self.version_states.insert(name, (seq, state));
        proof {
            assert(self@.version_states =~= old(self)@.version_states.insert(name@, (seq, state@)));
            assert(self@ =~= (RoomV {
                version_states: old(self)@.version_states.insert(name@, (seq, state@)),
                ..old(self)@
            }));
        }
    }
}

fn has_seq(seqs: &Vec<u64>, seq: u64) -> (b: bool)
    ensures
        b == seqs@.contains(seq),
{
    let mut i: usize = 0;
    while i < seqs.len()
        invariant
            i <= seqs@.len(),
            forall|j: int| 0 <= j < i ==> seqs@[j] != seq,
        decreases seqs@.len() - i,
    {
        if seqs[i] == seq {
            return true;
        }
        i += 1;
    }
    false
}

// --- receiving ---

/// Whether a message leaves the seen sequence within what a sequence can count.
pub open spec fn countable(s: SessionV, msg: MessageV) -> bool {
    msg matches MessageV::Ops { channel, ops } ==> (s.holds(channel)
        ==> s.rooms[channel.0].last_seen_seq + ops.len() <= u64::MAX)
}

impl ClientSession {
    /// Fold one server message in. An op delta applies in place; a snapshot replaces the
    /// room's replica. A frame that a server never sends, one for a channel not held, and
    /// bytes that do not decode are refused, and then nothing changes.
    pub fn receive(&mut self, msg: Message) -> (r: Result<(), ClientError>)
        requires
            old(self).wf(),
            countable(old(self)@, msg@),
        ensures
            final(self).wf(),
            match old(self)@.received(msg@) {
                Ok(s) => r is Ok && final(self)@ == s,
                Err(e) => r is Err && r->Err_0@ == e && final(self)@ == old(self)@,
            },
    {
        match &msg {
            Message::Ops { .. } => self.receive_ops(msg),
            Message::Snapshot { .. } => self.receive_ops(msg),
            Message::Accepted { .. } => self.receive_ops(msg),
            Message::OpsRejected { .. } => self.receive_ops(msg),
            Message::AwarenessUpdate { .. } => self.receive_view(msg),
            Message::AwarenessClear { .. } => self.receive_view(msg),
            Message::AwarenessClearKey { .. } => self.receive_view(msg),
            Message::Versions { .. } => self.receive_view(msg),
            Message::VersionState { .. } => self.receive_view(msg),
            _ => self.receive_roomless(msg),
        }
    }

    /// Fold in what moves a room's ops: a delta, a snapshot, or an answer to authored ops.
    #[verifier::rlimit(40)]
    #[verifier::spinoff_prover]
    fn receive_ops(&mut self, msg: Message) -> (r: Result<(), ClientError>)
        requires
            old(self).wf(),
            countable(old(self)@, msg@),
            moves_ops(msg@),
        ensures
            final(self).wf(),
            match old(self)@.received(msg@) {
                Ok(s) => r is Ok && final(self)@ == s,
                Err(e) => r is Err && r->Err_0@ == e && final(self)@ == old(self)@,
            },
    {
        broadcast use lemma_views_insert;

        reveal(SessionV::received);
        match msg {
            Message::Ops { channel, ops } => match self.rooms.get_mut(&channel.0) {
                Some(room) => {
                    room.apply_ops(&ops);
                    proof {
                        assert(self@ =~= old(self)@.received(msg@)->Ok_0);
                    }
                    Ok(())
                },
                None => Err(ClientError::UnknownChannel(channel)),
            },
            Message::Snapshot { channel, seq, state } => {
                let client = self.client.for_channel(channel.0);
                match self.rooms.get_mut(&channel.0) {
                    Some(room) => {
                        if room.adopt(client, seq, state.as_slice()) {
                            proof {
                                assert(self@ =~= old(self)@.received(msg@)->Ok_0);
                            }
                            Ok(())
                        } else {
                            proof {
                                assert(self@ =~= old(self)@);
                            }
                            Err(ClientError::BadSnapshot)
                        }
                    },
                    None => Err(ClientError::UnknownChannel(channel)),
                }
            },
            Message::Accepted { channel, through } => match self.rooms.get_mut(&channel.0) {
                Some(room) => {
                    room.acknowledge(through);
                    proof {
                        assert(self@ =~= old(self)@.received(msg@)->Ok_0);
                    }
                    Ok(())
                },
                None => Err(ClientError::UnknownChannel(channel)),
            },
            Message::OpsRejected { channel, seqs, reason } => {
                match self.rooms.get_mut(&channel.0) {
                    Some(room) => {
                        let ops = room.refuse(&seqs);
                        let ghost v = RejectedV { channel, reason, ops: ops_view(ops@) };
                        let ghost before = self@.rejected;
                        self.rejected.push(Rejected { channel, reason, ops });
                        proof {
                            assert(self@.rejected =~= before.push(v));
                            assert(self@ =~= old(self)@.received(msg@)->Ok_0);
                        }
                        Ok(())
                    },
                    None => Err(ClientError::UnknownChannel(channel)),
                }
            },
            _ => Ok(()),
        }
    }

    /// Fold in what a room shows beside its replica: awareness and versions.
    #[verifier::rlimit(40)]
    #[verifier::spinoff_prover]
    fn receive_view(&mut self, msg: Message) -> (r: Result<(), ClientError>)
        requires
            old(self).wf(),
            countable(old(self)@, msg@),
            moves_view(msg@),
        ensures
            final(self).wf(),
            match old(self)@.received(msg@) {
                Ok(s) => r is Ok && final(self)@ == s,
                Err(e) => r is Err && r->Err_0@ == e && final(self)@ == old(self)@,
            },
    {
        broadcast use lemma_views_insert;

        reveal(SessionV::received);
        match msg {
            Message::AwarenessUpdate { channel, actor, key, value } => {
                match self.rooms.get_mut(&channel.0) {
                    Some(room) => {
                        room.set_presence(actor, key, value);
                        proof {
                            assert(self@ =~= old(self)@.received(msg@)->Ok_0);
                        }
                        Ok(())
                    },
                    None => Err(ClientError::UnknownChannel(channel)),
                }
            },
            Message::AwarenessClear { channel, actor } => match self.rooms.get_mut(&channel.0) {
                Some(room) => {
                    room.clear_actor(actor.as_slice());
                    proof {
                        assert(self@ =~= old(self)@.received(msg@)->Ok_0);
                    }
                    Ok(())
                },
                None => Err(ClientError::UnknownChannel(channel)),
            },
            Message::AwarenessClearKey { channel, actor, key } => {
                match self.rooms.get_mut(&channel.0) {
                    Some(room) => {
                        room.drop_presence(actor, key);
                        proof {
                            assert(self@ =~= old(self)@.received(msg@)->Ok_0);
                        }
                        Ok(())
                    },
                    None => Err(ClientError::UnknownChannel(channel)),
                }
            },
            Message::Versions { channel, names } => match self.rooms.get_mut(&channel.0) {
                Some(room) => {
                    room.set_versions(names);
                    proof {
                        assert(self@ =~= old(self)@.received(msg@)->Ok_0);
                    }
                    Ok(())
                },
                None => Err(ClientError::UnknownChannel(channel)),
            },
            Message::VersionState { channel, name, seq, state } => {
                match self.rooms.get_mut(&channel.0) {
                    Some(room) => {
                        room.set_version_state(name, seq, state);
                        proof {
                            assert(self@ =~= old(self)@.received(msg@)->Ok_0);
                        }
                        Ok(())
                    },
                    None => Err(ClientError::UnknownChannel(channel)),
                }
            },
            _ => Ok(()),
        }
    }

    /// Fold in a message that names no channel, or refuse one that a server never sends.
    fn receive_roomless(&mut self, msg: Message) -> (r: Result<(), ClientError>)
        requires
            old(self).wf(),
            !moves_ops(msg@),
            !moves_view(msg@),
        ensures
            final(self).wf(),
            match old(self)@.received(msg@) {
                Ok(s) => r is Ok && final(self)@ == s,
                Err(e) => r is Err && r->Err_0@ == e && final(self)@ == old(self)@,
            },
    {
        reveal(SessionV::received);
        match msg {
            Message::AuthOk { actor } => {
                self.actor = Some(actor);
                proof {
                    assert(self@ =~= old(self)@.received(msg@)->Ok_0);
                }
                Ok(())
            },
            Message::SchemaAdvert { schema_version, schema } => {
                self.active_schema = Some((schema_version, schema));
                proof {
                    assert(self@ =~= old(self)@.received(msg@)->Ok_0);
                }
                Ok(())
            },
            Message::Error { code, message, .. } => Err(ClientError::Server { code, message }),
            Message::Redirect { room, leader_addr } => {
                let ghost before = self@.redirects;
                let ghost v = RedirectV { room: room@, leader_addr: leader_addr@ };
                self.redirects.push(Redirect { room, leader_addr });
                proof {
                    assert(self@.redirects =~= before.push(v));
                    assert(self@ =~= old(self)@.received(msg@)->Ok_0);
                }
                Ok(())
            },
            Message::Branches { room, branches } => {
                self.branches.insert(room, branches);
                proof {
                    assert(self@.branches =~= old(self)@.branches.insert(
                        room@,
                        branches_view(branches@),
                    ));
                    assert(self@ =~= old(self)@.received(msg@)->Ok_0);
                }
                Ok(())
            },
            Message::DiffResult { room, changes } => match decode_changes(changes.as_slice()) {
                Ok(list) => {
                    let ghost v = changes_view(list@);
                    self.diffs.insert(room, list);
                    proof {
                        assert(self@.diffs =~= old(self)@.diffs.insert(room@, v));
                        assert(self@ =~= old(self)@.received(msg@)->Ok_0);
                    }
                    Ok(())
                },
                Err(_) => Err(ClientError::BadDiff),
            },
            Message::CloneRoomResult { dst, created } => {
                self.clone_results.insert(dst, created);
                proof {
                    assert(self@ =~= old(self)@.received(msg@)->Ok_0);
                }
                Ok(())
            },
            Message::Ack { .. } => Err(ClientError::UnexpectedMessage("server sent an ack")),
            Message::Auth { .. } => Err(ClientError::UnexpectedMessage("server sent auth")),
            Message::AwarenessSet { .. } => Err(
                ClientError::UnexpectedMessage("server sent an awareness set"),
            ),
            Message::Hello { .. } => Err(ClientError::UnexpectedMessage("server sent hello")),
            Message::Subscribe { .. } => Err(
                ClientError::UnexpectedMessage("server sent subscribe"),
            ),
            Message::Unsubscribe { .. } => Err(
                ClientError::UnexpectedMessage("server sent unsubscribe"),
            ),
            Message::VersionCreate { .. } => Err(
                ClientError::UnexpectedMessage("server sent a version request"),
            ),
            Message::VersionRename { .. } => Err(
                ClientError::UnexpectedMessage("server sent a version request"),
            ),
            Message::VersionDelete { .. } => Err(
                ClientError::UnexpectedMessage("server sent a version request"),
            ),
            Message::VersionList { .. } => Err(
                ClientError::UnexpectedMessage("server sent a version request"),
            ),
            Message::VersionFetch { .. } => Err(
                ClientError::UnexpectedMessage("server sent a version request"),
            ),
            Message::CloneRoom { .. } => Err(
                ClientError::UnexpectedMessage("server sent a clone request"),
            ),
            Message::Replicate { .. } => Err(
                ClientError::UnexpectedMessage("server sent a replicate"),
            ),
            Message::ReplicaAck { .. } => Err(
                ClientError::UnexpectedMessage("server sent a replica ack"),
            ),
            Message::Gossip { .. } => Err(ClientError::UnexpectedMessage("server sent a gossip")),
            _ => Err(ClientError::UnexpectedMessage("server sent a branch or diff request")),
        }
    }
}

/// Whether a message bears on a room's ops.
pub open spec fn moves_ops(msg: MessageV) -> bool {
    msg is Ops || msg is Snapshot || msg is Accepted || msg is OpsRejected
}

/// Whether a message bears on what a room shows beside its replica.
pub open spec fn moves_view(msg: MessageV) -> bool {
    msg is AwarenessUpdate || msg is AwarenessClear || msg is AwarenessClearKey || msg is Versions
        || msg is VersionState
}

} // verus!
