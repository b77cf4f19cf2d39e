//! The frames a session sends, and the views it keeps for its caller.

use crate::bytes::byte_strings;
use crate::changes::{changes_view, Change};
use crate::client::{
    fresh_room, ops_after, ops_named, with_ops, ClientErrorV, ClientSession, Presence, Redirect,
    Rejected, Room, RoomV, SessionV,
};
use crate::clientid::ClientId;
use crate::doc::{law_ready_ops_apply_at_once, DocV, Document};
use crate::cursor::MapCursor;
use crate::identity::{admissible, root_element};
use crate::op::{ops_view, Op, OpV};
use crate::protocol::{
    branches_view, BranchInfo, Channel, DiffKind, ErrorCode, Message, MessageV,
};
use crate::table::{lemma_size, lemma_views_insert, lemma_views_remove, views, Table};
use vstd::prelude::*;
use vstd::slice::slice_to_vec;

verus! {

/// A frame, if there is one.
pub open spec fn opt_message(m: Option<Message>) -> Option<MessageV> {
    match m {
        Some(m) => Some(m@),
        None => None,
    }
}

/// Some bytes lent out, if there are any.
pub open spec fn opt_lent(b: Option<&[u8]>) -> Option<Seq<u8>> {
    match b {
        Some(b) => Some(b@),
        None => None,
    }
}

impl SessionV {
    /// A session that holds no rooms and names no app.
    pub open spec fn opened(client: ClientId) -> SessionV {
        SessionV {
            client,
            actor: None,
            app_id: Seq::empty(),
            schema_version: 0,
            active_schema: None,
            rooms: Map::empty(),
            next_channel: 0,
            rejected: Seq::empty(),
            redirects: Seq::empty(),
            branches: Map::empty(),
            diffs: Map::empty(),
            clone_results: Map::empty(),
        }
    }

    /// The room on a channel, if it is held.
    pub open spec fn room_on(self, channel: Channel) -> Option<RoomV> {
        if self.holds(channel) {
            Some(self.rooms[channel.0])
        } else {
            None
        }
    }

    /// A message, if a channel is held.
    pub open spec fn if_held(self, channel: Channel, msg: MessageV) -> Option<MessageV> {
        if self.holds(channel) {
            Some(msg)
        } else {
            None
        }
    }

    /// This session with a fresh room on the next channel.
    pub open spec fn subscribed(self, room: Seq<u8>, branch: Seq<u8>, zone: Seq<u8>) -> SessionV {
        SessionV {
            rooms: self.rooms.insert(
                self.next_channel,
                fresh_room(self.client.on_channel(self.next_channel), room, branch, zone),
            ),
            next_channel: (self.next_channel + 1) as u32,
            ..self
        }
    }

    /// This session with some ops in a held room's outbox.
    pub open spec fn enqueued(self, channel: Channel, ops: Seq<OpV>) -> SessionV {
        if self.holds(channel) {
            let r = self.rooms[channel.0];
            self.with_room(channel, RoomV { outbox: r.outbox + ops, ..r })
        } else {
            self
        }
    }

    /// This session with a held room's replica changed.
    pub open spec fn with_doc(self, channel: Channel, doc: DocV) -> SessionV {
        self.with_room(channel, RoomV { doc, ..self.rooms[channel.0] })
    }
}

pub open spec fn subscribe_frame(
    channel: Channel,
    room: Seq<u8>,
    branch: Seq<u8>,
    zone: Seq<u8>,
    last_seen_seq: u64,
) -> MessageV {
    MessageV::Subscribe { channel, room, branch, zone, last_seen_seq }
}

impl ClientSession {
    pub fn new(client: ClientId) -> (s: Self)
        ensures
            s.wf(),
            s@ == SessionV::opened(client),
    {
        let s = ClientSession {
            client,
            actor: None,
            app_id: Vec::new(),
            schema_version: 0,
            active_schema: None,
            rooms: Table::new(),
            next_channel: 0,
            rejected: Vec::new(),
            redirects: Vec::new(),
            branches: Table::new(),
            diffs: Table::new(),
            clone_results: Table::new(),
        };
        proof {
            assert(s@ =~= SessionV::opened(client));
        }
        s
    }

    /// Name the app this replica speaks for and the schema version it targets. An empty
    /// app opens a relay; version zero adopts the server's.
    pub fn declare_app(&mut self, app_id: &[u8], schema_version: u32)
        requires
            old(self).wf(),
        ensures
            final(self).wf(),
            final(self)@ == (SessionV { app_id: app_id@, schema_version, ..old(self)@ }),
    {
        self.app_id = slice_to_vec(app_id);
        self.schema_version = schema_version;
        proof {
            assert(self@ =~= (SessionV { app_id: app_id@, schema_version, ..old(self)@ }));
        }
    }

    pub fn app_id(&self) -> (b: &[u8])
        ensures
            b@ == self@.app_id,
    {
        self.app_id.as_slice()
    }

    pub fn schema_version(&self) -> (n: u32)
        ensures
            n == self@.schema_version,
    {
        self.schema_version
    }

    /// The version of the schema the server said it serves.
    pub fn active_schema_version(&self) -> (n: Option<u32>)
        ensures
            n == match self@.active_schema {
                Some((v, _)) => Some(v),
                None => None::<u32>,
            },
    {
        match &self.active_schema {
            Some((v, _)) => Some(*v),
            None => None,
        }
    }

    /// The schema the server said it serves.
    pub fn active_schema(&self) -> (b: Option<&[u8]>)
        ensures
            opt_lent(b) == match self@.active_schema {
                Some((_, s)) => Some(s),
                None => None::<Seq<u8>>,
            },
    {
        match &self.active_schema {
            Some((_, s)) => Some(s.as_slice()),
            None => None,
        }
    }

    /// The opening frame.
    pub fn hello(&self) -> (m: Message)
        ensures
            m@ == (MessageV::Hello {
                client: self@.client,
                app_id: self@.app_id,
                schema_version: self@.schema_version,
            }),
    {
        Message::Hello {
            client: self.client,
            app_id: slice_to_vec(self.app_id.as_slice()),
            schema_version: self.schema_version,
        }
    }

    /// A credential for the server to verify.
    pub fn auth(&self, credential: &[u8]) -> (m: Message)
        ensures
            m@ == (MessageV::Auth { credential: credential@ }),
    {
        Message::Auth { credential: slice_to_vec(credential) }
    }

    /// The actor the server derived from the credential.
    pub fn actor(&self) -> (b: Option<&[u8]>)
        ensures
            opt_lent(b) == self@.actor,
    {
        match &self.actor {
            Some(a) => Some(a.as_slice()),
            None => None,
        }
    }

    // --- subscribing ---

    /// Join a room's main branch, whole, on a fresh channel.
    pub fn subscribe(&mut self, room: &[u8]) -> (r: (Channel, Message))
        requires
            old(self).wf(),
            old(self).next_channel < u32::MAX,
        ensures
            final(self).wf(),
            final(self)@ == old(self)@.subscribed(room@, Seq::empty(), Seq::empty()),
            r.0 == Channel(old(self).next_channel),
            r.1@ == subscribe_frame(r.0, room@, Seq::empty(), Seq::empty(), 0),
    {
        let none: Vec<u8> = Vec::new();
        proof {
            assert(none@ =~= Seq::empty());
        }
        self.subscribe_inner(room, none.as_slice(), none.as_slice())
    }

    /// Join a branch of a room on a fresh channel.
    pub fn subscribe_branch(&mut self, room: &[u8], branch: &[u8]) -> (r: (Channel, Message))
        requires
            old(self).wf(),
            old(self).next_channel < u32::MAX,
        ensures
            final(self).wf(),
            final(self)@ == old(self)@.subscribed(room@, branch@, Seq::empty()),
            r.0 == Channel(old(self).next_channel),
            r.1@ == subscribe_frame(r.0, room@, branch@, Seq::empty(), 0),
    {
        let none: Vec<u8> = Vec::new();
        proof {
            assert(none@ =~= Seq::empty());
        }
        self.subscribe_inner(room, branch, none.as_slice())
    }

    /// Join one zone of a room on a fresh channel.
    pub fn subscribe_zone(&mut self, room: &[u8], zone: &[u8]) -> (r: (Channel, Message))
        requires
            old(self).wf(),
            old(self).next_channel < u32::MAX,
        ensures
            final(self).wf(),
            final(self)@ == old(self)@.subscribed(room@, Seq::empty(), zone@),
            r.0 == Channel(old(self).next_channel),
            r.1@ == subscribe_frame(r.0, room@, Seq::empty(), zone@, 0),
    {
        let none: Vec<u8> = Vec::new();
        proof {
            assert(none@ =~= Seq::empty());
        }
        self.subscribe_inner(room, none.as_slice(), zone)
    }

    fn subscribe_inner(&mut self, room: &[u8], branch: &[u8], zone: &[u8]) -> (r: (
        Channel,
        Message,
    ))
        requires
            old(self).wf(),
            old(self).next_channel < u32::MAX,
        ensures
            final(self).wf(),
            final(self)@ == old(self)@.subscribed(room@, branch@, zone@),
            r.0 == Channel(old(self).next_channel),
            r.1@ == subscribe_frame(r.0, room@, branch@, zone@, 0),
    {
        broadcast use lemma_views_insert;

        let channel = Channel(self.next_channel);
        self.next_channel = self.next_channel + 1;
        let client = self.client.for_channel(channel.0);
        self.rooms.insert(channel.0, Room::fresh(client, room, branch, zone));
        proof {
            assert(self@ =~= old(self)@.subscribed(room@, branch@, zone@));
        }
        (
            channel,
            Message::Subscribe {
                channel,
                room: slice_to_vec(room),
                branch: slice_to_vec(branch),
                zone: slice_to_vec(zone),
                last_seen_seq: 0,
            },
        )
    }

    /// Subscribe again on a held channel from where it has caught up to.
    pub fn resume(&self, channel: Channel) -> (m: Option<Message>)
        requires
            self.wf(),
        ensures
            opt_message(m) == match self@.room_on(channel) {
                Some(r) => Some(
                    subscribe_frame(channel, r.room, r.branch, r.zone, r.last_seen_seq),
                ),
                None => None::<MessageV>,
            },
    {
        match self.rooms.get(&channel.0) {
            Some(r) => Some(
                Message::Subscribe {
                    channel,
                    room: slice_to_vec(r.room.as_slice()),
                    branch: slice_to_vec(r.branch.as_slice()),
                    zone: slice_to_vec(r.zone.as_slice()),
                    last_seen_seq: r.last_seen_seq,
                },
            ),
            None => None,
        }
    }

    /// The authored ops on a channel that the server has not acknowledged, to send again.
    pub fn resend(&self, channel: Channel) -> (m: Option<Message>)
        requires
            self.wf(),
        ensures
            opt_message(m) == match self@.room_on(channel) {
                Some(r) => if r.outbox.len() == 0 {
                    None
                } else {
                    Some(MessageV::Ops { channel, ops: r.outbox })
                },
                None => None::<MessageV>,
            },
    {
        match self.rooms.get(&channel.0) {
            Some(r) => {
                if r.outbox.len() == 0 {
                    None
                } else {
                    let ops = copy_ops(&r.outbox);
                    Some(Message::Ops { channel, ops })
                }
            },
            None => None,
        }
    }

    /// How many authored ops on a channel await acknowledgement.
    pub fn outbox_len(&self, channel: Channel) -> (n: usize)
        requires
            self.wf(),
        ensures
            n == match self@.room_on(channel) {
                Some(r) => r.outbox.len(),
                None => 0,
            },
    {
        match self.rooms.get(&channel.0) {
            Some(r) => r.outbox.len(),
            None => 0,
        }
    }

    /// The ops refused since the last call.
    pub fn take_rejected(&mut self) -> (out: Vec<Rejected>)
        requires
            old(self).wf(),
        ensures
            final(self).wf(),
            out@.map_values(|r: Rejected| r@) == old(self)@.rejected,
            final(self)@ == (SessionV { rejected: Seq::empty(), ..old(self)@ }),
    {
        let mut out: Vec<Rejected> = Vec::new();
        std::mem::swap(&mut out, &mut self.rejected);
        proof {
            assert(self@.rejected =~= Seq::empty());
            assert(self@ =~= (SessionV { rejected: Seq::empty(), ..old(self)@ }));
        }
        out
    }

    /// The redirects sent since the last call.
    pub fn take_redirects(&mut self) -> (out: Vec<Redirect>)
        requires
            old(self).wf(),
        ensures
            final(self).wf(),
            out@.map_values(|r: Redirect| r@) == old(self)@.redirects,
            final(self)@ == (SessionV { redirects: Seq::empty(), ..old(self)@ }),
    {
        let mut out: Vec<Redirect> = Vec::new();
        std::mem::swap(&mut out, &mut self.redirects);
        proof {
            assert(self@.redirects =~= Seq::empty());
            assert(self@ =~= (SessionV { redirects: Seq::empty(), ..old(self)@ }));
        }
        out
    }

    // --- editing ---

    /// Edit a room's replica and frame the ops. The seen sequence is the server's and
    /// does not move.
    pub fn edit<F: FnOnce(&mut MapCursor)>(&mut self, channel: Channel, f: F) -> (m: Option<Message>)
        requires
            old(self).wf(),
            forall|c: &mut MapCursor|
                #![trigger call_requires(f, (c,))]
                c.doc.wf() && c.map_id == root_element() ==> call_requires(f, (c,)),
            forall|c: &mut MapCursor|
                #![trigger call_ensures(f, (c,), ())]
                call_ensures(f, (c,), ()) ==> final(c).doc.wf() && *final(final(c).doc)
                    == *final(c.doc),
        ensures
            final(self).wf(),
            match old(self)@.room_on(channel) {
                Some(r) => exists|c: &mut MapCursor|
                    #![trigger call_ensures(f, (c,), ())]
                    call_ensures(f, (c,), ()) && c.map_id == root_element() && (*c.doc)@
                        == r.doc.begun() && opt_message(m) == Some(
                        MessageV::Ops { channel, ops: (*final(c).doc)@.edit_ops() },
                    ) && final(self)@ == old(self)@.with_doc(
                        channel,
                        (*final(c).doc)@.ended(),
                    ).enqueued(channel, (*final(c).doc)@.edit_ops()),
                None => m is None && final(self)@ == old(self)@,
            },
    {
        broadcast use lemma_views_insert;

        let ghost r = self@.rooms[channel.0];
        let ghost mut d = r.doc;
        let ops = match self.rooms.get_mut(&channel.0) {
            Some(room) => {
                let ops = room.doc.transact(f);
                proof {
                    d = room.doc@;
                    assert(room@ =~= (RoomV { doc: d, ..r }));
                }
                ops
            },
            None => {
                return None;
            },
        };
        proof {
            assert(self@ =~= old(self)@.with_doc(channel, d));
        }
        self.enqueue_ops(channel, ops)
    }

    /// Edit a room's replica as one atomic transaction and frame the ops.
    pub fn atomic_edit<F: FnOnce(&mut MapCursor)>(&mut self, channel: Channel, f: F) -> (m: Option<Message>)
        requires
            old(self).wf(),
            forall|c: &mut MapCursor|
                #![trigger call_requires(f, (c,))]
                c.doc.wf() && c.map_id == root_element() ==> call_requires(f, (c,)),
            forall|c: &mut MapCursor|
                #![trigger call_ensures(f, (c,), ())]
                call_ensures(f, (c,), ()) ==> final(c).doc.wf() && *final(final(c).doc)
                    == *final(c.doc),
        ensures
            final(self).wf(),
            match old(self)@.room_on(channel) {
                Some(r) => exists|c: &mut MapCursor|
                    #![trigger call_ensures(f, (c,), ())]
                    call_ensures(f, (c,), ()) && c.map_id == root_element() && (*c.doc)@
                        == r.doc.atomic_begun().begun() && opt_message(m) == Some(
                        MessageV::Ops { channel, ops: (*final(c).doc)@.ended().atomic_ops() },
                    ) && final(self)@ == old(self)@.with_doc(
                        channel,
                        (*final(c).doc)@.ended().committed_atomic(),
                    ).enqueued(channel, (*final(c).doc)@.ended().atomic_ops()),
                None => m is None && final(self)@ == old(self)@,
            },
    {
        broadcast use lemma_views_insert;

        let ghost r = self@.rooms[channel.0];
        let ghost mut d = r.doc;
        let ops = match self.rooms.get_mut(&channel.0) {
            Some(room) => {
                let ops = room.doc.atomic_transact(f);
                proof {
                    d = room.doc@;
                    assert(room@ =~= (RoomV { doc: d, ..r }));
                }
                ops
            },
            None => {
                return None;
            },
        };
        proof {
            assert(self@ =~= old(self)@.with_doc(channel, d));
        }
        self.enqueue_ops(channel, ops)
    }

    /// Begin an atomic transaction on a room: edits gather until it is committed.
    pub fn begin_atomic(&mut self, channel: Channel) -> (r: Option<()>)
        requires
            old(self).wf(),
        ensures
            final(self).wf(),
            r is Some == old(self)@.holds(channel),
            final(self)@ == match old(self)@.room_on(channel) {
                Some(r) => old(self)@.with_doc(channel, r.doc.atomic_begun()),
                None => old(self)@,
            },
    {
        broadcast use lemma_views_insert;

        let ghost was = self@.rooms[channel.0];
        match self.rooms.get_mut(&channel.0) {
            Some(room) => {
                room.doc.begin_atomic();
                proof {
                    assert(room@ =~= (RoomV { doc: was.doc.atomic_begun(), ..was }));
                }
            },
            None => {
                return None;
            },
        }
        proof {
            assert(self@ =~= old(self)@.with_doc(channel, was.doc.atomic_begun()));
        }
        Some(())
    }

    /// Commit the atomic transaction of a room and frame its ops.
    pub fn commit_atomic(&mut self, channel: Channel) -> (m: Option<Message>)
        requires
            old(self).wf(),
        ensures
            final(self).wf(),
            match old(self)@.room_on(channel) {
                Some(r) => {
                    &&& opt_message(m) == Some(MessageV::Ops { channel, ops: r.doc.atomic_ops() })
                    &&& final(self)@ == old(self)@.with_doc(
                        channel,
                        r.doc.committed_atomic(),
                    ).enqueued(channel, r.doc.atomic_ops())
                },
                None => m is None && final(self)@ == old(self)@,
            },
    {
        broadcast use lemma_views_insert;

        let ghost r = self@.rooms[channel.0];
        let ops = match self.rooms.get_mut(&channel.0) {
            Some(room) => {
                let ops = room.doc.commit_atomic();
                proof {
                    assert(room@ =~= (RoomV { doc: r.doc.committed_atomic(), ..r }));
                }
                ops
            },
            None => {
                return None;
            },
        };
        proof {
            assert(self@ =~= old(self)@.with_doc(channel, r.doc.committed_atomic()));
        }
        self.enqueue_ops(channel, ops)
    }

    /// Put authored ops in a room's outbox and frame them.
    pub fn enqueue_ops(&mut self, channel: Channel, ops: Vec<Op>) -> (m: Option<Message>)
        requires
            old(self).wf(),
        ensures
            final(self).wf(),
            opt_message(m) == old(self)@.if_held(
                channel,
                MessageV::Ops { channel, ops: ops_view(ops@) },
            ),
            final(self)@ == old(self)@.enqueued(channel, ops_view(ops@)),
    {
        broadcast use lemma_views_insert;

        let ghost r = self@.rooms[channel.0];
        match self.rooms.get_mut(&channel.0) {
            Some(room) => {
                let mut more = copy_ops(&ops);
                let ghost v = ops_view(ops@);
                let ghost start = room.outbox@;
                let ghost added = more@;
                room.outbox.append(&mut more);
                proof {
                    assert(ops_view(room.outbox@) =~= ops_view(start) + v) by {
                        assert(ops_view(added) == v);
                        assert forall|i: int| 0 <= i < added.len() implies ops_view(added)[i]
                            == added[i]@ by {}
                    }
                    assert(room@ =~= (RoomV { outbox: r.outbox + v, ..r }));
                }
            },
            None => {
                return None;
            },
        }
        proof {
            assert(self@ =~= old(self)@.enqueued(channel, ops_view(ops@)));
        }
        Some(Message::Ops { channel, ops })
    }

    // --- awareness ---

    /// An awareness entry to publish.
    pub fn set_awareness(&self, channel: Channel, key: &[u8], value: &[u8]) -> (m: Option<Message>)
        requires
            self.wf(),
        ensures
            opt_message(m) == self@.if_held(
                channel,
                MessageV::AwarenessSet { channel, key: key@, value: value@ },
            ),
    {
        if self.rooms.contains_key(&channel.0) {
            Some(
                Message::AwarenessSet {
                    channel,
                    key: slice_to_vec(key),
                    value: slice_to_vec(value),
                },
            )
        } else {
            None
        }
    }

    /// A peer's awareness entry on a channel.
    pub fn awareness(&self, channel: Channel, actor: &[u8], key: &[u8]) -> (b: Option<&[u8]>)
        requires
            self.wf(),
        ensures
            opt_lent(b) == match self@.room_on(channel) {
                Some(r) => if r.awareness.dom().contains((actor@, key@)) {
                    Some(r.awareness[(actor@, key@)])
                } else {
                    None
                },
                None => None::<Seq<u8>>,
            },
    {
        match self.rooms.get(&channel.0) {
            Some(r) => {
                let p = Presence { actor: slice_to_vec(actor), key: slice_to_vec(key) };
                match r.awareness.get(&p) {
                    Some(v) => Some(v.as_slice()),
                    None => None,
                }
            },
            None => None,
        }
    }

    /// How many awareness entries a channel has.
    pub fn awareness_len(&self, channel: Channel) -> (n: usize)
        requires
            self.wf(),
        ensures
            n == match self@.room_on(channel) {
                Some(r) => r.awareness.dom().len(),
                None => 0,
            },
    {
        match self.rooms.get(&channel.0) {
            Some(r) => {
                proof {
                    lemma_size::<Presence, Vec<u8>>(r.awareness.entries@);
                    assert(views(r.awareness@).dom() =~= r.awareness@.dom());
                }
                r.awareness.len()
            },
            None => 0,
        }
    }

    // --- versions ---

    /// Capture a room's state as a version.
    pub fn create_version(&self, channel: Channel, name: &[u8]) -> (m: Option<Message>)
        requires
            self.wf(),
        ensures
            opt_message(m) == self@.if_held(
                channel,
                MessageV::VersionCreate { channel, name: name@ },
            ),
    {
        if self.rooms.contains_key(&channel.0) {
            Some(Message::VersionCreate { channel, name: slice_to_vec(name) })
        } else {
            None
        }
    }

    /// Rename a version.
    pub fn rename_version(&self, channel: Channel, from: &[u8], to: &[u8]) -> (m: Option<Message>)
        requires
            self.wf(),
        ensures
            opt_message(m) == self@.if_held(
                channel,
                MessageV::VersionRename { channel, from: from@, to: to@ },
            ),
    {
        if self.rooms.contains_key(&channel.0) {
            Some(Message::VersionRename { channel, from: slice_to_vec(from), to: slice_to_vec(to) })
        } else {
            None
        }
    }

    /// Delete a version.
    pub fn delete_version(&self, channel: Channel, name: &[u8]) -> (m: Option<Message>)
        requires
            self.wf(),
        ensures
            opt_message(m) == self@.if_held(
                channel,
                MessageV::VersionDelete { channel, name: name@ },
            ),
    {
        if self.rooms.contains_key(&channel.0) {
            Some(Message::VersionDelete { channel, name: slice_to_vec(name) })
        } else {
            None
        }
    }

    /// Ask for the names of a room's versions.
    pub fn list_versions(&self, channel: Channel) -> (m: Option<Message>)
        requires
            self.wf(),
        ensures
            opt_message(m) == self@.if_held(channel, MessageV::VersionList { channel }),
    {
        if self.rooms.contains_key(&channel.0) {
            Some(Message::VersionList { channel })
        } else {
            None
        }
    }

    /// Ask for a version's state.
    pub fn fetch_version(&self, channel: Channel, name: &[u8]) -> (m: Option<Message>)
        requires
            self.wf(),
        ensures
            opt_message(m) == self@.if_held(
                channel,
                MessageV::VersionFetch { channel, name: name@ },
            ),
    {
        if self.rooms.contains_key(&channel.0) {
            Some(Message::VersionFetch { channel, name: slice_to_vec(name) })
        } else {
            None
        }
    }

    /// The version names last reported for a room.
    pub fn versions(&self, channel: Channel) -> (r: Option<&[Vec<u8>]>)
        requires
            self.wf(),
        ensures
            match (r, self@.room_on(channel)) {
                (Some(names), Some(room)) => byte_strings(names@) == room.version_names,
                (None, None) => true,
                _ => false,
            },
    {
        match self.rooms.get(&channel.0) {
            Some(r) => Some(r.version_names.as_slice()),
            None => None,
        }
    }

    /// The state of a version that was fetched.
    pub fn version_state(&self, channel: Channel, name: &[u8]) -> (b: Option<&[u8]>)
        requires
            self.wf(),
        ensures
            opt_lent(b) == match self@.room_on(channel) {
                Some(r) => if r.version_states.dom().contains(name@) {
                    Some(r.version_states[name@].1)
                } else {
                    None
                },
                None => None::<Seq<u8>>,
            },
    {
        match self.rooms.get(&channel.0) {
            Some(r) => match r.version_states.get(&slice_to_vec(name)) {
                Some((_, state)) => Some(state.as_slice()),
                None => None,
            },
            None => None,
        }
    }

    // --- branches, diffs and clones ---

    /// Ask for a room's branches.
    pub fn list_branches(&self, room: &[u8]) -> (m: Message)
        ensures
            m@ == (MessageV::BranchList { room: room@ }),
    {
        Message::BranchList { room: slice_to_vec(room) }
    }

    /// Fork a branch off another's head.
    pub fn fork_branch(&self, room: &[u8], name: &[u8], from_branch: &[u8]) -> (m: Message)
        ensures
            m@ == (MessageV::BranchFork { room: room@, name: name@, from_branch: from_branch@ }),
    {
        Message::BranchFork {
            room: slice_to_vec(room),
            name: slice_to_vec(name),
            from_branch: slice_to_vec(from_branch),
        }
    }

    /// Fork a branch off a version.
    pub fn fork_branch_from_version(&self, room: &[u8], name: &[u8], version: &[u8]) -> (m: Message)
        ensures
            m@ == (MessageV::BranchForkFromVersion {
                room: room@,
                name: name@,
                version: version@,
            }),
    {
        Message::BranchForkFromVersion {
            room: slice_to_vec(room),
            name: slice_to_vec(name),
            version: slice_to_vec(version),
        }
    }

    /// Restore a version as a branch and make it the active one.
    pub fn restore_branch(&self, room: &[u8], name: &[u8], version: &[u8]) -> (m: Message)
        ensures
            m@ == (MessageV::BranchRestore { room: room@, name: name@, version: version@ }),
    {
        Message::BranchRestore {
            room: slice_to_vec(room),
            name: slice_to_vec(name),
            version: slice_to_vec(version),
        }
    }

    /// Publish the active branch onto a read-only one.
    pub fn publish_branch(&self, room: &[u8], published: &[u8]) -> (m: Message)
        ensures
            m@ == (MessageV::BranchPublish { room: room@, published: published@ }),
    {
        Message::BranchPublish { room: slice_to_vec(room), published: slice_to_vec(published) }
    }

    /// Delete a branch.
    pub fn delete_branch(&self, room: &[u8], name: &[u8]) -> (m: Message)
        ensures
            m@ == (MessageV::BranchDelete { room: room@, name: name@ }),
    {
        Message::BranchDelete { room: slice_to_vec(room), name: slice_to_vec(name) }
    }

    /// The branches last reported for a room.
    pub fn branches(&self, room: &[u8]) -> (r: Option<&[BranchInfo]>)
        requires
            self.wf(),
        ensures
            match r {
                Some(b) => self@.branches.dom().contains(room@) && branches_view(b@)
                    == self@.branches[room@],
                None => !self@.branches.dom().contains(room@),
            },
    {
        match self.branches.get(&slice_to_vec(room)) {
            Some(b) => Some(b.as_slice()),
            None => None,
        }
    }

    /// Ask for the diff between two versions or two branches.
    pub fn diff_query(&self, room: &[u8], kind: DiffKind, a: &[u8], b: &[u8]) -> (m: Message)
        ensures
            m@ == (MessageV::DiffQuery { room: room@, kind, a: a@, b: b@ }),
    {
        Message::DiffQuery {
            room: slice_to_vec(room),
            kind,
            a: slice_to_vec(a),
            b: slice_to_vec(b),
        }
    }

    /// The diff last returned for a room.
    pub fn diff(&self, room: &[u8]) -> (r: Option<&[Change]>)
        requires
            self.wf(),
        ensures
            match r {
                Some(c) => self@.diffs.dom().contains(room@) && changes_view(c@)
                    == self@.diffs[room@],
                None => !self@.diffs.dom().contains(room@),
            },
    {
        match self.diffs.get(&slice_to_vec(room)) {
            Some(c) => Some(c.as_slice()),
            None => None,
        }
    }

    /// Ask to copy a room's state into a fresh room.
    pub fn clone_room(&self, src: &[u8], dst: &[u8]) -> (m: Message)
        ensures
            m@ == (MessageV::CloneRoom { src: src@, dst: dst@ }),
    {
        Message::CloneRoom { src: slice_to_vec(src), dst: slice_to_vec(dst) }
    }

    /// Whether the clone last answered for `dst` made it.
    pub fn clone_result(&self, dst: &[u8]) -> (r: Option<bool>)
        requires
            self.wf(),
        ensures
            r == if self@.clone_results.dom().contains(dst@) {
                Some(self@.clone_results[dst@])
            } else {
                None::<bool>
            },
    {
        match self.clone_results.get(&slice_to_vec(dst)) {
            Some(b) => Some(*b),
            None => None,
        }
    }

    /// Leave a room and drop its replica.
    pub fn unsubscribe(&mut self, channel: Channel) -> (m: Option<Message>)
        requires
            old(self).wf(),
        ensures
            final(self).wf(),
            opt_message(m) == old(self)@.if_held(channel, MessageV::Unsubscribe { channel }),
            final(self)@ == (SessionV { rooms: old(self)@.rooms.remove(channel.0), ..old(self)@ }),
    {
        broadcast use lemma_views_remove;

        let gone = self.rooms.remove(&channel.0);
        proof {
            assert(self@ =~= (SessionV {
                rooms: old(self)@.rooms.remove(channel.0),
                ..old(self)@
            }));
        }
        match gone {
            Some(_) => Some(Message::Unsubscribe { channel }),
            None => None,
        }
    }

    // --- rooms ---

    /// A room's replica.
    pub fn document(&self, channel: Channel) -> (r: Option<&Document>)
        requires
            self.wf(),
        ensures
            match (r, self@.room_on(channel)) {
                (Some(d), Some(room)) => d.wf() && d@ == room.doc,
                (None, None) => true,
                _ => false,
            },
    {
        match self.rooms.get(&channel.0) {
            Some(r) => Some(&r.doc),
            None => None,
        }
    }

    /// A room's replica, to edit. Ops that editing returns are to be
    /// [enqueued](Self::enqueue_ops).
    pub fn document_mut(&mut self, channel: Channel) -> (r: Option<&mut Document>)
        requires
            old(self).wf(),
        ensures
            match r {
                Some(d) => old(self)@.holds(channel) && d.wf() && d@ == old(
                    self,
                )@.rooms[channel.0].doc && ((*final(d)).wf() ==> final(self).wf() && final(self)@
                    == old(self)@.with_doc(channel, (*final(d))@)),
                None => !old(self)@.holds(channel) && *final(self) == *old(self),
            },
    {
        broadcast use lemma_views_insert;

        match self.rooms.get_mut(&channel.0) {
            Some(room) => Some(&mut room.doc),
            None => None,
        }
    }

    /// The server sequence a room has caught up to.
    pub fn last_seen_seq(&self, channel: Channel) -> (r: Option<u64>)
        requires
            self.wf(),
        ensures
            r == match self@.room_on(channel) {
                Some(room) => Some(room.last_seen_seq),
                None => None::<u64>,
            },
    {
        match self.rooms.get(&channel.0) {
            Some(r) => Some(r.last_seen_seq),
            None => None,
        }
    }

    /// The name of a room.
    pub fn room(&self, channel: Channel) -> (b: Option<&[u8]>)
        requires
            self.wf(),
        ensures
            opt_lent(b) == match self@.room_on(channel) {
                Some(r) => Some(r.room),
                None => None::<Seq<u8>>,
            },
    {
        match self.rooms.get(&channel.0) {
            Some(r) => Some(r.room.as_slice()),
            None => None,
        }
    }

    /// The branch of a room.
    pub fn branch(&self, channel: Channel) -> (b: Option<&[u8]>)
        requires
            self.wf(),
        ensures
            opt_lent(b) == match self@.room_on(channel) {
                Some(r) => Some(r.branch),
                None => None::<Seq<u8>>,
            },
    {
        match self.rooms.get(&channel.0) {
            Some(r) => Some(r.branch.as_slice()),
            None => None,
        }
    }

    /// The zone of a room.
    pub fn zone(&self, channel: Channel) -> (b: Option<&[u8]>)
        requires
            self.wf(),
        ensures
            opt_lent(b) == match self@.room_on(channel) {
                Some(r) => Some(r.zone),
                None => None::<Seq<u8>>,
            },
    {
        match self.rooms.get(&channel.0) {
            Some(r) => Some(r.zone.as_slice()),
            None => None,
        }
    }
}

fn copy_ops(ops: &Vec<Op>) -> (out: Vec<Op>)
    ensures
        ops_view(out@) == ops_view(ops@),
{
    let mut out: Vec<Op> = Vec::new();
    let mut i: usize = 0;
    while i < ops.len()
        invariant
            i <= ops@.len(),
            out@.len() == i,
            forall|j: int| 0 <= j < i ==> (#[trigger] out@[j])@ == ops@[j]@,
        decreases ops@.len() - i,
    {
        out.push(ops[i].clone());
        i += 1;
    }
    proof {
        assert(ops_view(out@) =~= ops_view(ops@));
    }
    out
}

// --- laws ---

proof fn lemma_after(ops: Seq<OpV>, through: u64, i: int)
    requires
        0 <= i < ops_after(ops, through).len(),
    ensures
        ops_after(ops, through)[i].id.seq > through,
        ops.contains(ops_after(ops, through)[i]),
    decreases ops.len(),
{
    let r = ops_after(ops.drop_last(), through);
    if i < r.len() {
        lemma_after(ops.drop_last(), through, i);
        let j = ops.drop_last().index_of(r[i]);
        assert(ops[j] == r[i]);
    } else {
        assert(ops[ops.len() - 1] == ops.last());
    }
}

proof fn lemma_after_keeps(ops: Seq<OpV>, through: u64, x: OpV)
    requires
        ops.contains(x),
        x.id.seq > through,
    ensures
        ops_after(ops, through).contains(x),
    decreases ops.len(),
{
    let i = ops.index_of(x);
    let r = ops_after(ops.drop_last(), through);
    if i < ops.len() - 1 {
        assert(ops.drop_last()[i] == x);
        lemma_after_keeps(ops.drop_last(), through, x);
        let j = r.index_of(x);
        assert(ops_after(ops, through)[j] == x);
    } else {
        assert(ops_after(ops, through)[r.len() as int] == x);
    }
}

/// An acknowledged op is never sent again, and every other authored op stays to be.
pub proof fn law_acknowledged_ops_leave_the_outbox(ops: Seq<OpV>, through: u64, x: OpV)
    ensures
        ops_after(ops, through).contains(x) <==> ops.contains(x) && x.id.seq > through,
{
    if ops_after(ops, through).contains(x) {
        lemma_after(ops, through, ops_after(ops, through).index_of(x));
    }
    if ops.contains(x) && x.id.seq > through {
        lemma_after_keeps(ops, through, x);
    }
}

/// Acknowledging again changes nothing.
pub proof fn law_acknowledging_is_idempotent(ops: Seq<OpV>, through: u64)
    ensures
        ops_after(ops_after(ops, through), through) == ops_after(ops, through),
    decreases ops.len(),
{
    if ops.len() > 0 {
        law_acknowledging_is_idempotent(ops.drop_last(), through);
        let r = ops_after(ops.drop_last(), through);
        if ops.last().id.seq > through {
            assert(r.push(ops.last()).drop_last() =~= r);
        }
    }
}

/// Every authored op is either refused or still to be sent, and never both.
pub proof fn law_refused_ops_leave_the_outbox(ops: Seq<OpV>, seqs: Seq<u64>, x: OpV)
    ensures
        ops_named(ops, seqs, true).contains(x) <==> ops.contains(x) && seqs.contains(x.id.seq),
        ops_named(ops, seqs, false).contains(x) <==> ops.contains(x) && !seqs.contains(x.id.seq),
{
    lemma_named(ops, seqs, true, x);
    lemma_named(ops, seqs, false, x);
}

proof fn lemma_named(ops: Seq<OpV>, seqs: Seq<u64>, named: bool, x: OpV)
    ensures
        ops_named(ops, seqs, named).contains(x) <==> ops.contains(x) && seqs.contains(x.id.seq)
            == named,
    decreases ops.len(),
{
    if ops.len() > 0 {
        let front = ops.drop_last();
        let r = ops_named(front, seqs, named);
        lemma_named(front, seqs, named, x);
        let all = ops_named(ops, seqs, named);
        if all.contains(x) {
            let i = all.index_of(x);
            if i < r.len() {
                assert(r[i] == x);
                let j = front.index_of(x);
                assert(ops[j] == x);
            } else {
                assert(ops[ops.len() - 1] == x);
            }
        }
        if ops.contains(x) && seqs.contains(x.id.seq) == named {
            let i = ops.index_of(x);
            if i < front.len() {
                assert(front[i] == x);
                let j = r.index_of(x);
                assert(all[j] == x);
            } else {
                assert(all[r.len() as int] == x);
            }
        }
    }
}

/// A message touches no room but the one it names.
pub proof fn law_a_message_touches_one_room(s: SessionV, msg: MessageV, channel: Channel)
    requires
        s.received(msg) is Ok,
        s.holds(channel),
        room_of(msg) != Some(channel),
    ensures
        s.received(msg)->Ok_0.rooms.dom().contains(channel.0),
        s.received(msg)->Ok_0.rooms[channel.0] == s.rooms[channel.0],
{
    reveal(SessionV::received);
}

/// The channel a message is routed by.
pub open spec fn room_of(msg: MessageV) -> Option<Channel> {
    match msg {
        MessageV::Ops { channel, .. } => Some(channel),
        MessageV::Snapshot { channel, .. } => Some(channel),
        MessageV::Accepted { channel, .. } => Some(channel),
        MessageV::OpsRejected { channel, .. } => Some(channel),
        MessageV::AwarenessUpdate { channel, .. } => Some(channel),
        MessageV::AwarenessClear { channel, .. } => Some(channel),
        MessageV::AwarenessClearKey { channel, .. } => Some(channel),
        MessageV::Versions { channel, .. } => Some(channel),
        MessageV::VersionState { channel, .. } => Some(channel),
        _ => None,
    }
}

/// A snapshot keeps the channel's own author and takes up its op sequence where it stood,
/// so an op minted next cannot collide with one already authored.
pub proof fn law_a_snapshot_keeps_the_author(s: SessionV, channel: Channel, seq: u64, state: Seq<u8>)
    requires
        s.received(MessageV::Snapshot { channel, seq, state }) is Ok,
    ensures
        ({
            let was = s.rooms[channel.0].doc;
            let now = s.received(MessageV::Snapshot { channel, seq, state })->Ok_0.rooms[channel.0];
            now.doc.client == s.client.on_channel(channel.0) && now.doc.seq == was.free_seq(was.seq)
                && now.last_seen_seq == seq && now.outbox == s.rooms[channel.0].outbox
        }),
{
    reveal(SessionV::received);
}

/// Whether a message is about one room.
pub open spec fn about(msg: MessageV, channel: Channel) -> bool {
    room_of(msg) == Some(channel)
}

/// A message about a room that is not held is an error, and is told apart from any other.
pub proof fn law_an_unheld_room_is_an_error(s: SessionV, msg: MessageV, channel: Channel)
    requires
        about(msg, channel),
        !s.holds(channel),
    ensures
        s.received(msg) == Err::<SessionV, ClientErrorV>(ClientErrorV::UnknownChannel(channel)),
{
    reveal(SessionV::received);
}

/// Accepted ops leave the outbox and no other does; what the room shows stays.
pub proof fn law_accepted_ops_are_not_sent_again(
    s: SessionV,
    channel: Channel,
    through: u64,
    x: OpV,
)
    requires
        s.holds(channel),
    ensures
        s.received(MessageV::Accepted { channel, through }) matches Ok(t) && t.holds(channel) && ({
            let was = s.rooms[channel.0];
            let now = t.rooms[channel.0];
            &&& now.outbox.contains(x) <==> was.outbox.contains(x) && x.id.seq > through
            &&& now.doc == was.doc
            &&& now.awareness == was.awareness
            &&& t.rejected == s.rejected
        }),
{
    reveal(SessionV::received);
    law_acknowledged_ops_leave_the_outbox(s.rooms[channel.0].outbox, through, x);
}

/// Rejected ops leave the outbox for the list of rejections, with the reason, and no other
/// does.
pub proof fn law_rejected_ops_are_reported(
    s: SessionV,
    channel: Channel,
    seqs: Seq<u64>,
    reason: ErrorCode,
    x: OpV,
)
    requires
        s.holds(channel),
    ensures
        s.received(MessageV::OpsRejected { channel, seqs, reason }) matches Ok(t) && t.holds(
            channel,
        ) && ({
            let was = s.rooms[channel.0];
            let now = t.rooms[channel.0];
            &&& now.outbox.contains(x) <==> was.outbox.contains(x) && !seqs.contains(x.id.seq)
            &&& t.rejected.len() == s.rejected.len() + 1
            &&& t.rejected.drop_last() == s.rejected
            &&& t.rejected.last().channel == channel
            &&& t.rejected.last().reason == reason
            &&& t.rejected.last().ops.contains(x) <==> was.outbox.contains(x) && seqs.contains(
                x.id.seq,
            )
            &&& now.doc == was.doc
        }),
{
    reveal(SessionV::received);
    let t = s.received(MessageV::OpsRejected { channel, seqs, reason })->Ok_0;
    assert(t.rejected.drop_last() =~= s.rejected);
    law_refused_ops_leave_the_outbox(s.rooms[channel.0].outbox, seqs, x);
}

/// What an actor is said to show is shown until it is said again or cleared; what another
/// shows, or the same under another key, is as it was.
pub proof fn law_awareness_is_what_was_last_said(
    s: SessionV,
    channel: Channel,
    actor: Seq<u8>,
    key: Seq<u8>,
    value: Seq<u8>,
    at: (Seq<u8>, Seq<u8>),
)
    requires
        s.holds(channel),
    ensures
        ({
            let was = s.rooms[channel.0].awareness;
            let told = s.received(MessageV::AwarenessUpdate { channel, actor, key, value });
            let cleared = s.received(MessageV::AwarenessClear { channel, actor });
            let keyless = s.received(MessageV::AwarenessClearKey { channel, actor, key });
            &&& told matches Ok(t) && shown_at(t.rooms[channel.0].awareness, at) == if at == (
                actor,
                key,
            ) {
                Some(value)
            } else {
                shown_at(was, at)
            }
            &&& cleared matches Ok(t) && shown_at(t.rooms[channel.0].awareness, at) == if at.0
                == actor {
                None
            } else {
                shown_at(was, at)
            }
            &&& keyless matches Ok(t) && shown_at(t.rooms[channel.0].awareness, at) == if at == (
                actor,
                key,
            ) {
                None
            } else {
                shown_at(was, at)
            }
        }),
{
    reveal(SessionV::received);
}

/// What is shown by an actor under a key.
pub open spec fn shown_at(m: Map<(Seq<u8>, Seq<u8>), Seq<u8>>, at: (Seq<u8>, Seq<u8>)) -> Option<
    Seq<u8>,
> {
    if m.dom().contains(at) {
        Some(m[at])
    } else {
        None
    }
}

/// Ops received move the room on by as many as there are, keep what waits to be sent, and
/// may come in one message or several.
pub proof fn law_received_ops_may_be_split(
    s: SessionV,
    channel: Channel,
    a: Seq<OpV>,
    b: Seq<OpV>,
)
    requires
        s.holds(channel),
        s.rooms[channel.0].last_seen_seq + a.len() + b.len() <= u64::MAX,
    ensures
        s.received(MessageV::Ops { channel, ops: a }) matches Ok(t) && t.holds(channel)
            && t.rooms[channel.0].last_seen_seq == s.rooms[channel.0].last_seen_seq + a.len()
            && t.rooms[channel.0].outbox == s.rooms[channel.0].outbox && t.received(
            MessageV::Ops { channel, ops: b },
        ) == s.received(MessageV::Ops { channel, ops: a + b }),
{
    reveal(SessionV::received);
    let t = s.received(MessageV::Ops { channel, ops: a })->Ok_0;
    let d = s.rooms[channel.0].doc;
    lemma_ops_split(d, a, b);
    let x = t.received(MessageV::Ops { channel, ops: b })->Ok_0;
    let y = s.received(MessageV::Ops { channel, ops: a + b })->Ok_0;
    assert(x.rooms =~= y.rooms);
}

proof fn lemma_ops_split(d: DocV, a: Seq<OpV>, b: Seq<OpV>)
    ensures
        with_ops(with_ops(d, a), b) == with_ops(d, a + b),
    decreases b.len(),
{
    if b.len() == 0 {
        assert(a + b =~= a);
    } else {
        assert((a + b).drop_last() =~= a + b.drop_last());
        lemma_ops_split(d, a, b.drop_last());
    }
}

/// An op that can apply is applied when it is received: the room's replica has it from then
/// on.
pub proof fn law_a_received_op_is_had(s: SessionV, channel: Channel, op: OpV)
    requires
        s.holds(channel),
        s.rooms[channel.0].last_seen_seq < u64::MAX,
        admissible(op),
        op.tx is None,
        !s.rooms[channel.0].doc.has_op(op.id),
        s.rooms[channel.0].doc.tree.ready(op),
    ensures
        s.received(MessageV::Ops { channel, ops: seq![op] }) matches Ok(t)
            && t.rooms[channel.0].doc.seen.contains(op.id),
{
    reveal(SessionV::received);
    let d = s.rooms[channel.0].doc;
    assert(seq![op].drop_last() =~= Seq::empty());
    assert(with_ops(d, Seq::empty()) == d);
    assert(with_ops(d, seq![op]) == d.with_op(op));
    law_ready_ops_apply_at_once(d, op);
}

} // verus!
