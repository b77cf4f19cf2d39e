//! Document: a replica. A tree of containers, lamport clocks, and the ops it holds.
//!
//! An op is keyed by its author and sequence number and applies once. One that the state
//! cannot express yet, because its target's create is unseen, the nodes it deletes are
//! absent or its atomic group is incomplete, waits in the buffer and replays once what it
//! waits on arrives, so delivery out of order converges.

use crate::annot::GroupKey;
use crate::clientid::ClientId;
use crate::element::{opt_element, Element};
use crate::elementid::ElementId;
use crate::identity::{
    admissible, reservation_end, root_element, root_id, span, spec_reservation_end, spec_span,
};
use crate::map::live_value;
use crate::op::{ops_view, Op, OpId, OpV, Tx};
use crate::schema::{Schema, SchemaV};
use crate::stamp::LAMPORT_WIRE_CEILING;
use crate::table::{Key, Table};
use crate::tree::{OrphanEvent, Tree, TreeV};
use crate::undo::{History, HistoryV};
use crate::walk::opt_schema;
use vstd::prelude::*;

verus! {

/// A replica.
pub struct Document {
    pub client: ClientId,
    pub tree: Tree,
    /// The clock of the root partition.
    pub lamport: u64,
    /// The clock of every zone that was ever stamped in.
    pub zone_clocks: Table<u32, u64>,
    /// Whether a mint of the current intention was refused.
    pub mint_refused: bool,
    pub seq: u64,
    /// The ops of an open atomic transaction.
    pub atomic: Option<Vec<Op>>,
    /// The ids of every op applied.
    pub seen: Table<OpId, ()>,
    /// The ops that wait.
    pub buffer: Vec<Op>,
    /// The atomic groups that are settled: a member that comes later applies on its own.
    pub resolved_tx: Table<GroupKey, ()>,
    /// The ops emitted since the edit began.
    pub pending: Vec<Op>,
    pub schema: Option<Schema>,
    pub history: History,
}

/// A replica, by value.
#[verifier::ext_equal]
pub struct DocV {
    pub client: ClientId,
    pub tree: TreeV,
    pub lamport: u64,
    pub zone_clocks: Map<u32, u64>,
    pub mint_refused: bool,
    pub seq: u64,
    pub atomic: Option<Seq<OpV>>,
    pub seen: Set<OpId>,
    pub buffer: Seq<OpV>,
    pub resolved: Set<GroupKey>,
    pub pending: Seq<OpV>,
    pub schema: Option<SchemaV>,
    pub history: HistoryV,
}

/// The ops of an open transaction, by value.
pub open spec fn opt_ops(o: Option<Vec<Op>>) -> Option<Seq<OpV>> {
    match o {
        Some(v) => Some(ops_view(v@)),
        None => None,
    }
}

impl View for Document {
    type V = DocV;

    open spec fn view(&self) -> DocV {
        DocV {
            client: self.client,
            tree: self.tree@,
            lamport: self.lamport,
            zone_clocks: self.zone_clocks@,
            mint_refused: self.mint_refused,
            seq: self.seq,
            atomic: opt_ops(self.atomic),
            seen: self.seen@.dom(),
            buffer: ops_view(self.buffer@),
            resolved: self.resolved_tx@.dom(),
            pending: ops_view(self.pending@),
            schema: opt_schema(self.schema),
            history: self.history@,
        }
    }
}

/// The atomic group an op belongs to.
pub open spec fn group_of(op: OpV) -> Option<GroupKey> {
    match op.tx {
        Some(tx) => Some(GroupKey { client: op.id.client, tx: tx.id }),
        None => None,
    }
}

pub(crate) fn group_key(op: &Op) -> (k: Option<GroupKey>)
    ensures
        k == group_of(op@),
{
    match op.tx {
        Some(tx) => Some(GroupKey { client: op.id.client, tx: tx.id }),
        None => None,
    }
}

/// Whether the ops hold one with this id.
pub open spec fn holds_op(ops: Seq<OpV>, id: OpId) -> bool {
    exists|i: int| 0 <= i < ops.len() && (#[trigger] ops[i]).id == id
}

/// The op with this id among some ops.
pub open spec fn op_at(ops: Seq<OpV>, id: OpId) -> Option<OpV>
    decreases ops.len(),
{
    if ops.len() == 0 {
        None
    } else if ops[0].id == id {
        Some(ops[0])
    } else {
        op_at(ops.skip(1), id)
    }
}

/// How many of the ops belong to an atomic group.
pub open spec fn tagged(ops: Seq<OpV>) -> nat
    decreases ops.len(),
{
    if ops.len() == 0 {
        0
    } else {
        tagged(ops.drop_last()) + if ops.last().tx is Some {
            1nat
        } else {
            0
        }
    }
}

/// The members of a group among some ops.
pub open spec fn members_of(ops: Seq<OpV>, key: GroupKey) -> Seq<OpV>
    decreases ops.len(),
{
    if ops.len() == 0 {
        Seq::empty()
    } else {
        let rest = members_of(ops.drop_last(), key);
        if group_of(ops.last()) == Some(key) {
            rest.push(ops.last())
        } else {
            rest
        }
    }
}

/// The ops that are not members of a group.
pub open spec fn others_of(ops: Seq<OpV>, key: GroupKey) -> Seq<OpV>
    decreases ops.len(),
{
    if ops.len() == 0 {
        Seq::empty()
    } else {
        let rest = others_of(ops.drop_last(), key);
        if group_of(ops.last()) == Some(key) {
            rest
        } else {
            rest.push(ops.last())
        }
    }
}

/// Whether a group is all here: its members declare one size, and are that many.
pub open spec fn complete(ops: Seq<OpV>, key: GroupKey, count: u32) -> bool {
    members_of(ops, key).len() == count && all_declare(members_of(ops, key), count)
}

/// Whether every one of some members declares this size.
pub open spec fn all_declare(members: Seq<OpV>, count: u32) -> bool {
    forall|i: int| 0 <= i < members.len() ==> (#[trigger] members[i]).tx->Some_0.count == count
}

proof fn lemma_all_declare(members: Seq<OpV>, op: OpV, count: u32)
    ensures
        all_declare(members.push(op), count) == (all_declare(members, count)
            && op.tx->Some_0.count == count),
{
    let m = members.push(op);
    assert(m[members.len() as int] == op);
    if all_declare(m, count) {
        assert forall|i: int| 0 <= i < members.len() implies (#[trigger] members[i]).tx->Some_0.count
            == count by {
            assert(m[i] == members[i]);
        }
    }
}

/// Whether the op at `i` belongs to a complete group.
pub open spec fn complete_at(ops: Seq<OpV>, i: int) -> bool {
    match group_of(ops[i]) {
        Some(key) => complete(ops, key, ops[i].tx->Some_0.count),
        None => false,
    }
}

/// The first op of a complete group, from `i` on.
pub open spec fn first_complete(ops: Seq<OpV>, i: nat) -> Option<nat>
    decreases ops.len() - i,
{
    if i >= ops.len() {
        None
    } else if complete_at(ops, i as int) {
        Some(i)
    } else {
        first_complete(ops, i + 1)
    }
}

/// Ops in order of sequence number.
pub open spec fn by_seq(ops: Seq<OpV>) -> Seq<OpV>
    decreases ops.len(),
{
    if ops.len() == 0 {
        Seq::empty()
    } else {
        put_by_seq(by_seq(ops.drop_last()), ops.last())
    }
}

/// An op put in its place by sequence number.
pub open spec fn put_by_seq(ops: Seq<OpV>, op: OpV) -> Seq<OpV>
    decreases ops.len(),
{
    if ops.len() == 0 || ops.last().id.seq <= op.id.seq {
        ops.push(op)
    } else {
        put_by_seq(ops.drop_last(), op).push(ops.last())
    }
}

/// Ops with the members of settled groups taken out of them.
pub open spec fn untagged(ops: Seq<OpV>, resolved: Set<GroupKey>) -> Seq<OpV> {
    ops.map_values(
        |op: OpV|
            if group_of(op) matches Some(k) && resolved.contains(k) {
                OpV { tx: None, ..op }
            } else {
                op
            },
    )
}

impl DocV {
    pub open spec fn empty(client: ClientId) -> DocV {
        DocV {
            client,
            tree: TreeV::empty(),
            lamport: 0,
            zone_clocks: Map::empty(),
            mint_refused: false,
            seq: 0,
            atomic: None,
            seen: Set::empty(),
            buffer: Seq::empty(),
            resolved: Set::empty(),
            pending: Seq::empty(),
            schema: None,
            history: HistoryV::empty(),
        }
    }

    /// The clock of a partition.
    pub open spec fn clock(self, zone: Option<u32>) -> u64 {
        match zone {
            None => self.lamport,
            Some(z) => if self.zone_clocks.dom().contains(z) {
                self.zone_clocks[z]
            } else {
                0
            },
        }
    }

    /// With a partition's clock at least at `to`.
    pub open spec fn advanced(self, zone: Option<u32>, to: u64) -> DocV {
        match zone {
            None => DocV {
                lamport: if to > self.lamport {
                    to
                } else {
                    self.lamport
                },
                ..self
            },
            Some(z) => DocV {
                zone_clocks: self.zone_clocks.insert(
                    z,
                    if to > self.clock(zone) {
                        to
                    } else {
                        self.clock(zone)
                    },
                ),
                ..self
            },
        }
    }

    /// After an op applies: it is seen, its partition's clock clears what it reserves, up
    /// to the ceiling a fold may raise a clock to, and the state takes it.
    pub open spec fn applied(self, op: OpV) -> DocV {
        let end = spec_reservation_end(op.stamp, spec_span(op.kind));
        let to = if end <= LAMPORT_WIRE_CEILING {
            end as u64
        } else {
            LAMPORT_WIRE_CEILING
        };
        let d = self.advanced(op.zone, to);
        DocV {
            seen: d.seen.insert(op.id),
            tree: d.tree.apply_kind(op.target, op.kind, op.stamp, op.id.client),
            ..d
        }
    }

    /// The first op in the buffer that can apply on its own, from `i` on.
    pub open spec fn first_ready(self, i: nat) -> Option<nat>
        decreases self.buffer.len() - i,
    {
        if i >= self.buffer.len() {
            None
        } else if self.buffer[i as int].tx is None && self.tree.ready(self.buffer[i as int]) {
            Some(i)
        } else {
            self.first_ready(i + 1)
        }
    }

    /// After every op that can apply on its own has, in the order they came to be able to.
    pub open spec fn drained_plain(self) -> DocV
        decreases self.buffer.len(),
    {
        match self.first_ready(0) {
            Some(i) => if i < self.buffer.len() {
                (DocV { buffer: self.buffer.remove(i as int), ..self }).applied(
                    self.buffer[i as int],
                ).drained_plain()
            } else {
                self
            },
            None => self,
        }
    }

    /// After a member of a settled group applies, or waits on its own if it cannot.
    pub open spec fn with_member(self, op: OpV) -> DocV {
        if self.tree.ready(op) {
            self.applied(op)
        } else {
            DocV { buffer: self.buffer.push(OpV { tx: None, ..op }), ..self }
        }
    }

    pub open spec fn with_members(self, ops: Seq<OpV>) -> DocV
        decreases ops.len(),
    {
        if ops.len() == 0 {
            self
        } else {
            self.with_members(ops.drop_last()).with_member(ops.last())
        }
    }

    /// With a group settled, and whoever waits under it waiting on its own.
    pub open spec fn with_resolved(self, key: GroupKey) -> DocV {
        if self.resolved.contains(key) {
            self
        } else {
            let resolved = self.resolved.insert(key);
            DocV { resolved, buffer: untagged(self.buffer, resolved), ..self }
        }
    }

    /// After a complete group commits: its members apply in order of sequence number.
    pub open spec fn committed(self, key: GroupKey) -> DocV {
        let members = by_seq(members_of(self.buffer, key));
        (DocV { buffer: others_of(self.buffer, key), ..self }).with_resolved(key).with_members(
            members,
        )
    }

    /// After everything that waits and can apply has: ops on their own, then one complete
    /// group, and so on until neither is left.
    #[verifier::opaque]
    pub open spec fn drained(self) -> DocV
        decreases tagged(self.buffer),
        via Self::drained_ends
    {
        let d = self.drained_plain();
        match first_complete(d.buffer, 0) {
            Some(i) => d.committed(group_of(d.buffer[i as int])->Some_0).drained(),
            None => d,
        }
    }

    #[via_fn]
    proof fn drained_ends(self) {
        let d = self.drained_plain();
        lemma_plain_tagged(self);
        if let Some(i) = first_complete(d.buffer, 0) {
            lemma_first_complete(d.buffer, 0);
            lemma_commit_tagged(d, i as int);
        }
    }

    /// Whether the op is applied or waits.
    pub open spec fn has_op(self, id: OpId) -> bool {
        self.seen.contains(id) || holds_op(self.buffer, id)
    }

    /// With an op waiting: its ids are as published as an applied one's.
    pub open spec fn held(self, op: OpV) -> DocV {
        DocV {
            tree: self.tree.record(op.stamp, spec_span(op.kind)),
            buffer: self.buffer.push(op),
            ..self
        }
    }

    /// After a second copy of an op that waits under another group: both groups are
    /// settled, so every order of arrival lands the same set.
    pub open spec fn after_repeat(self, op: OpV) -> DocV {
        match (op.tx, op_at(self.buffer, op.id)) {
            (Some(tx), Some(mine)) => match mine.tx {
                Some(t) if t != tx => self.with_resolved(
                    GroupKey { client: op.id.client, tx: t.id },
                ).with_resolved(GroupKey { client: op.id.client, tx: tx.id }).drained(),
                _ => self,
            },
            _ => self,
        }
    }

    /// An op with its group taken off if that group is settled.
    pub open spec fn unstrayed(self, op: OpV) -> OpV {
        if group_of(op) matches Some(k) && self.resolved.contains(k) {
            OpV { tx: None, ..op }
        } else {
            op
        }
    }

    /// After a foreign op is folded in.
    pub open spec fn with_op(self, op: OpV) -> DocV {
        if !admissible(op) {
            self
        } else if self.has_op(op.id) {
            if holds_op(self.buffer, op.id) {
                self.after_repeat(op)
            } else {
                self
            }
        } else {
            let op = self.unstrayed(op);
            if op.tx is Some {
                self.held(op).drained()
            } else if !self.tree.ready(op) {
                self.held(op)
            } else {
                self.applied(op).drained()
            }
        }
    }

    /// Whether folding a foreign op in applies it now.
    pub open spec fn applies_now(self, op: OpV) -> bool {
        admissible(op) && !self.has_op(op.id) && self.with_op(op).seen.contains(op.id)
    }
}

// --- why the drain ends ---

proof fn lemma_tagged_remove(ops: Seq<OpV>, i: int)
    requires
        0 <= i < ops.len(),
    ensures
        tagged(ops.remove(i)) <= tagged(ops),
    decreases ops.len(),
{
    if i == ops.len() - 1 {
        assert(ops.remove(i) =~= ops.drop_last());
    } else {
        lemma_tagged_remove(ops.drop_last(), i);
        assert(ops.remove(i).drop_last() =~= ops.drop_last().remove(i));
        assert(ops.remove(i).last() == ops.last());
    }
}

/// Draining ops on their own leaves no more members than there were.
pub(crate) proof fn lemma_plain_tagged(d: DocV)
    ensures
        tagged(d.drained_plain().buffer) <= tagged(d.buffer),
    decreases d.buffer.len(),
{
    if let Some(i) = d.first_ready(0) {
        if i < d.buffer.len() {
            let e = (DocV { buffer: d.buffer.remove(i as int), ..d }).applied(
                d.buffer[i as int],
            );
            lemma_tagged_remove(d.buffer, i as int);
            lemma_plain_tagged(e);
        }
    }
}

pub(crate) proof fn lemma_first_complete(ops: Seq<OpV>, i: nat)
    ensures
        first_complete(ops, i) matches Some(j) ==> i <= j < ops.len() && complete_at(ops, j as int),
    decreases ops.len() - i,
{
    if i < ops.len() && !complete_at(ops, i as int) {
        lemma_first_complete(ops, i + 1);
    }
}

/// Taking a group out takes its members out.
proof fn lemma_others_tagged(ops: Seq<OpV>, key: GroupKey)
    ensures
        tagged(others_of(ops, key)) + members_of(ops, key).len() == tagged(ops),
    decreases ops.len(),
{
    if ops.len() > 0 {
        lemma_others_tagged(ops.drop_last(), key);
        let rest = others_of(ops.drop_last(), key);
        assert(rest.push(ops.last()).drop_last() =~= rest);
    }
}

proof fn lemma_untagged(ops: Seq<OpV>, resolved: Set<GroupKey>)
    ensures
        tagged(untagged(ops, resolved)) <= tagged(ops),
    decreases ops.len(),
{
    if ops.len() > 0 {
        lemma_untagged(ops.drop_last(), resolved);
        assert(untagged(ops, resolved).drop_last() =~= untagged(ops.drop_last(), resolved));
    }
}

proof fn lemma_members_tagged(d: DocV, ops: Seq<OpV>)
    ensures
        tagged(d.with_members(ops).buffer) <= tagged(d.buffer),
    decreases ops.len(),
{
    if ops.len() > 0 {
        lemma_members_tagged(d, ops.drop_last());
        let e = d.with_members(ops.drop_last());
        let op = OpV { tx: None, ..ops.last() };
        assert(e.buffer.push(op).drop_last() =~= e.buffer);
    }
}

/// A member is among its group's members.
proof fn lemma_member_in(ops: Seq<OpV>, i: int, key: GroupKey)
    requires
        0 <= i < ops.len(),
        group_of(ops[i]) == Some(key),
    ensures
        members_of(ops, key).len() > 0,
    decreases ops.len(),
{
    if i < ops.len() - 1 {
        lemma_member_in(ops.drop_last(), i, key);
    }
}

/// Committing a group leaves fewer members.
pub(crate) proof fn lemma_commit_tagged(d: DocV, i: int)
    requires
        0 <= i < d.buffer.len(),
        complete_at(d.buffer, i),
    ensures
        tagged(d.committed(group_of(d.buffer[i])->Some_0).buffer) < tagged(d.buffer),
{
    let key = group_of(d.buffer[i])->Some_0;
    let e = DocV { buffer: others_of(d.buffer, key), ..d };
    lemma_others_tagged(d.buffer, key);
    lemma_member_in(d.buffer, i, key);
    lemma_untagged(e.buffer, e.resolved.insert(key));
    lemma_members_tagged(e.with_resolved(key), by_seq(members_of(d.buffer, key)));
}

// --- a replica at work ---

impl Document {
    /// Every store is well formed, and every op that waits is one a replica may hold.
    pub open spec fn wf(&self) -> bool {
        &&& self.tree.wf()
        &&& self.zone_clocks.wf()
        &&& self.seen.wf()
        &&& self.resolved_tx.wf()
        &&& self.history.wf()
        &&& forall|i: int| 0 <= i < self.buffer@.len() ==> admissible((#[trigger] self.buffer@[i])@)
    }

    pub fn new(client: ClientId) -> (d: Self)
        ensures
            d.wf(),
            d@ == DocV::empty(client),
    {
        let d = Document {
            client,
            tree: Tree::new(),
            lamport: 0,
            zone_clocks: Table::new(),
            mint_refused: false,
            seq: 0,
            atomic: None,
            seen: Table::new(),
            buffer: Vec::new(),
            resolved_tx: Table::new(),
            pending: Vec::new(),
            schema: None,
            history: History::new(),
        };
        proof {
            assert(d@ =~= DocV::empty(client));
        }
        d
    }

    pub fn client(&self) -> (c: ClientId)
        ensures
            c == self@.client,
    {
        self.client
    }

    /// The shared root id.
    pub fn root_id(&self) -> (id: ElementId)
        ensures
            id == root_element(),
    {
        root_id()
    }

    /// The ids of every op this replica has applied, by author and sequence number.
    pub fn seen(&self) -> (ids: Vec<OpId>)
        requires
            self.wf(),
        ensures
            ids@ == crate::table::ordered::<OpId>(self@.seen),
            ids@.to_set() == self@.seen,
    {
        let mut ids: Vec<OpId> = Vec::new();
        let ghost e = self.seen.entries@;
        let mut i: usize = 0;
        while i < self.seen.entries.len()
            invariant
                e == self.seen.entries@,
                i <= e.len(),
                ids@ == crate::table::seq_keys(e).take(i as int),
            decreases e.len() - i,
        {
            ids.push(self.seen.entries[i].0);
            proof {
                assert(crate::table::seq_keys(e).take(i + 1) =~= crate::table::seq_keys(e).take(
                    i as int,
                ).push(e[i as int].0));
            }
            i += 1;
        }
        proof {
            assert(crate::table::seq_keys(e).take(i as int) =~= crate::table::seq_keys(e));
            crate::table::lemma_ordered::<OpId, ()>(e);
        }
        ids
    }

    /// Read a live slot of the root map.
    pub fn get(&self, key: &[u8]) -> (r: Option<Element>)
        requires
            self.wf(),
        ensures
            opt_element(r) == live_value(self@.tree.slot(root_element(), key@)),
    {
        match self.tree.maps.get(root_id()) {
            Some(m) => m.get(key),
            None => None,
        }
    }

    /// Drain the orphan events since the last call.
    pub fn take_orphans(&mut self) -> (out: Vec<OrphanEvent>)
        requires
            old(self).wf(),
        ensures
            final(self).wf(),
            out@ == old(self)@.tree.orphans,
            final(self)@ == (DocV {
                tree: TreeV { orphans: Seq::empty(), ..old(self)@.tree },
                ..old(self)@
            }),
    {
        let mut out: Vec<OrphanEvent> = Vec::new();
        std::mem::swap(&mut out, &mut self.tree.orphans);
        proof {
            assert(self@ =~= (DocV {
                tree: TreeV { orphans: Seq::empty(), ..old(self)@.tree },
                ..old(self)@
            }));
        }
        out
    }

    /// Bind a schema: the zones ops are partitioned by and the marks a read combines.
    pub fn set_schema(&mut self, schema: Schema)
        requires
            old(self).wf(),
        ensures
            final(self).wf(),
            final(self)@ == (DocV { schema: Some(schema@), ..old(self)@ }),
    {
        self.schema = Some(schema);
    }

    // --- clocks ---

    pub(crate) fn clock(&self, zone: Option<u32>) -> (n: u64)
        requires
            self.wf(),
        ensures
            n == self@.clock(zone),
    {
        match zone {
            None => self.lamport,
            Some(z) => match self.zone_clocks.get(&z) {
                Some(n) => *n,
                None => 0,
            },
        }
    }

    /// The clock of a partition: the root's for `None`, else the zone's own.
    pub fn zone_clock(&self, zone: Option<u32>) -> (n: u64)
        requires
            self.wf(),
        ensures
            n == self@.clock(zone),
    {
        self.clock(zone)
    }

    pub(crate) fn advance_clock(&mut self, zone: Option<u32>, to: u64)
        requires
            old(self).wf(),
        ensures
            final(self).wf(),
            final(self)@ == old(self)@.advanced(zone, to),
            final(self).buffer == old(self).buffer,
    {
        match zone {
            None => {
                if to > self.lamport {
                    self.lamport = to;
                }
            },
            Some(z) => {
                let n: u64 = self.clock(zone);
                self.zone_clocks.insert(
                    z,
                    if to > n {
                        to
                    } else {
                        n
                    },
                );
            },
        }
        proof {
            assert(self@ =~= old(self)@.advanced(zone, to));
        }
    }

    // --- folding ---

    /// Apply an op: mark it seen, advance the clock, and route it.
    fn apply_now(&mut self, op: &Op)
        requires
            old(self).wf(),
            admissible(op@),
        ensures
            final(self).wf(),
            final(self)@ == old(self)@.applied(op@),
            final(self).buffer == old(self).buffer,
    {
        let end: u64 = reservation_end(op.stamp, span(&op.kind));
        let to: u64 = if end <= LAMPORT_WIRE_CEILING {
            end
        } else {
            LAMPORT_WIRE_CEILING
        };
        self.advance_clock(op.zone, to);
        let ghost d = self@;
        self.seen.insert(op.id, ());
        proof {
            assert(self@.seen =~= d.seen.insert(op.id));
        }
        self.tree.apply_kind(op.target, &op.kind, op.stamp, op.id.client);
        proof {
            assert(self@ =~= old(self)@.applied(op@));
        }
    }

    /// Whether the buffer holds an op with this id.
    pub(crate) fn buffers(&self, id: OpId) -> (b: bool)
        ensures
            b == holds_op(self@.buffer, id),
    {
        let mut i: usize = 0;
        while i < self.buffer.len()
            invariant
                i <= self.buffer@.len(),
                forall|j: int| 0 <= j < i ==> (#[trigger] self@.buffer[j]).id != id,
            decreases self.buffer@.len() - i,
        {
            proof {
                assert(self@.buffer[i as int] == self.buffer@[i as int]@);
            }
            if self.buffer[i].id == id {
                return true;
            }
            i += 1;
        }
        false
    }

    /// Hold an op in the buffer until it can apply.
    fn hold(&mut self, op: Op)
        requires
            old(self).wf(),
            admissible(op@),
        ensures
            final(self).wf(),
            final(self)@ == (DocV { buffer: old(self)@.buffer.push(op@), ..old(self)@ }),
    {
        let ghost b = self.buffer@;
        self.buffer.push(op);
        proof {
            assert(ops_view(self.buffer@) =~= ops_view(b).push(op@));
            assert(self@ =~= (DocV { buffer: old(self)@.buffer.push(op@), ..old(self)@ }));
        }
    }

    fn find_ready(&self) -> (r: Option<usize>)
        requires
            self.wf(),
        ensures
            match self@.first_ready(0) {
                Some(i) => r matches Some(j) && j == i && j < self.buffer@.len(),
                None => r is None,
            },
    {
        let mut i: usize = 0;
        while i < self.buffer.len()
            invariant
                self.wf(),
                i <= self.buffer@.len(),
                self@.first_ready(0) == self@.first_ready(i as nat),
            decreases self.buffer@.len() - i,
        {
            proof {
                assert(self@.buffer[i as int] == self.buffer@[i as int]@);
            }
            if self.buffer[i].tx.is_none() && self.tree.ready(&self.buffer[i]) {
                return Some(i);
            }
            i += 1;
        }
        None
    }

    fn drain_plain(&mut self)
        requires
            old(self).wf(),
        ensures
            final(self).wf(),
            final(self)@ == old(self)@.drained_plain(),
    {
        let ghost start = self@;
        loop
            invariant
                self.wf(),
                start.drained_plain() == self@.drained_plain(),
            ensures
                self.wf(),
                self@ == start.drained_plain(),
            decreases self.buffer@.len(),
        {
            let i: usize = match self.find_ready() {
                Some(i) => i,
                None => {
                    break;
                },
            };
            let ghost b = self.buffer@;
            let ghost d = self@;
            proof {
                assert(admissible(b[i as int]@));
            }
            let op = self.buffer.remove(i);
            proof {
                assert(ops_view(self.buffer@) =~= d.buffer.remove(i as int));
                assert(self@ =~= (DocV { buffer: d.buffer.remove(i as int), ..d }));
                assert forall|j: int| 0 <= j < self.buffer@.len() implies admissible(
                    (#[trigger] self.buffer@[j])@,
                ) by {
                    if j < i {
                        assert(self.buffer@[j] == b[j]);
                    } else {
                        assert(self.buffer@[j] == b[j + 1]);
                    }
                }
                assert(d.buffer[i as int] == op@);
            }
            self.apply_now(&op);
        }
    }

    /// The size a group's members declare, if they declare one and are that many.
    fn group_is_complete(&self, key: GroupKey, count: u32) -> (b: bool)
        ensures
            b == complete(self@.buffer, key, count),
    {
        let ghost s = self@.buffer;
        let mut n: usize = 0;
        let mut i: usize = 0;
        let mut agree = true;
        proof {
            assert(s.take(0) =~= Seq::empty());
        }
        while i < self.buffer.len()
            invariant
                s == self@.buffer,
                i <= self.buffer@.len(),
                n <= i,
                n == members_of(s.take(i as int), key).len(),
                agree == all_declare(members_of(s.take(i as int), key), count),
            decreases self.buffer@.len() - i,
        {
            let ghost m = members_of(s.take(i as int), key);
            proof {
                assert(s.take(i + 1).drop_last() =~= s.take(i as int));
                assert(s.take(i + 1).last() == self.buffer@[i as int]@);
            }
            let mine = match group_key(&self.buffer[i]) {
                Some(k) => k == key,
                None => false,
            };
            if mine {
                let same = match self.buffer[i].tx {
                    Some(tx) => tx.count == count,
                    None => false,
                };
                proof {
                    lemma_all_declare(m, self.buffer@[i as int]@, count);
                }
                if !same {
                    agree = false;
                }
                n += 1;
            }
            i += 1;
        }
        proof {
            assert(s.take(i as int) =~= s);
        }
        agree && n as u64 == count as u64
    }

    fn find_complete(&self) -> (r: Option<usize>)
        requires
            self.wf(),
        ensures
            match first_complete(self@.buffer, 0) {
                Some(i) => r matches Some(j) && j == i && j < self.buffer@.len() && complete_at(
                    self@.buffer,
                    j as int,
                ),
                None => r is None,
            },
    {
        let mut i: usize = 0;
        while i < self.buffer.len()
            invariant
                self.wf(),
                i <= self.buffer@.len(),
                first_complete(self@.buffer, 0) == first_complete(self@.buffer, i as nat),
            decreases self.buffer@.len() - i,
        {
            proof {
                assert(self@.buffer[i as int] == self.buffer@[i as int]@);
            }
            match (group_key(&self.buffer[i]), self.buffer[i].tx) {
                (Some(key), Some(tx)) => {
                    if self.group_is_complete(key, tx.count) {
                        return Some(i);
                    }
                },
                _ => {},
            }
            i += 1;
        }
        None
    }

    /// Take a group's members out of the buffer.
    fn take_members(&mut self, key: GroupKey) -> (out: Vec<Op>)
        requires
            old(self).wf(),
        ensures
            final(self).wf(),
            final(self)@ == (DocV {
                buffer: others_of(old(self)@.buffer, key),
                ..old(self)@
            }),
            ops_view(out@) == members_of(old(self)@.buffer, key),
            forall|i: int| 0 <= i < out@.len() ==> admissible((#[trigger] out@[i])@),
    {
        let mut all: Vec<Op> = Vec::new();
        std::mem::swap(&mut all, &mut self.buffer);
        let ghost s = ops_view(all@);
        let mut rest: Vec<Op> = Vec::new();
        let mut out: Vec<Op> = Vec::new();
        let mut i: usize = 0;
        proof {
            assert(s.take(0) =~= Seq::empty());
            assert(ops_view(rest@) =~= Seq::empty());
            assert(ops_view(out@) =~= Seq::empty());
        }
        while i < all.len()
            invariant
                s == ops_view(all@),
                i <= all@.len(),
                forall|j: int| 0 <= j < all@.len() ==> admissible((#[trigger] all@[j])@),
                ops_view(rest@) == others_of(s.take(i as int), key),
                ops_view(out@) == members_of(s.take(i as int), key),
                forall|j: int| 0 <= j < rest@.len() ==> admissible((#[trigger] rest@[j])@),
                forall|j: int| 0 <= j < out@.len() ==> admissible((#[trigger] out@[j])@),
            decreases all@.len() - i,
        {
            proof {
                assert(s.take(i + 1).drop_last() =~= s.take(i as int));
                assert(s.take(i + 1).last() == all@[i as int]@);
                assert(admissible(all@[i as int]@));
            }
            let op = all[i].clone();
            let ghost r0 = ops_view(rest@);
            let ghost o0 = ops_view(out@);
            let mine = match group_key(&op) {
                Some(k) => k == key,
                None => false,
            };
            if mine {
                out.push(op);
                proof {
                    assert(ops_view(out@) =~= o0.push(op@));
                }
            } else {
                rest.push(op);
                proof {
                    assert(ops_view(rest@) =~= r0.push(op@));
                }
            }
            i += 1;
        }
        proof {
            assert(s.take(i as int) =~= s);
        }
        self.buffer = rest;
        proof {
            assert(self@ =~= (DocV {
                buffer: others_of(old(self)@.buffer, key),
                ..old(self)@
            }));
        }
        out
    }

    /// Take settled groups off the ops that wait.
    pub(crate) fn untag_resolved(&mut self)
        requires
            old(self).wf(),
        ensures
            final(self).wf(),
            final(self)@ == (DocV {
                buffer: untagged(old(self)@.buffer, old(self)@.resolved),
                ..old(self)@
            }),
    {
        let ghost b = self.buffer@;
        let ghost want = untagged(self@.buffer, self@.resolved);
        let mut i: usize = 0;
        while i < self.buffer.len()
            invariant
                self.resolved_tx.wf(),
                self.resolved_tx == old(self).resolved_tx,
                b == old(self).buffer@,
                want == untagged(old(self)@.buffer, old(self)@.resolved),
                self.buffer@.len() == b.len(),
                i <= b.len(),
                forall|j: int| 0 <= j < b.len() ==> admissible((#[trigger] b[j])@),
                forall|j: int| 0 <= j < i ==> (#[trigger] self.buffer@[j])@ == want[j],
                forall|j: int| i <= j < b.len() ==> #[trigger] self.buffer@[j] == b[j],
                self.client == old(self).client,
                self.tree == old(self).tree,
                self.lamport == old(self).lamport,
                self.zone_clocks == old(self).zone_clocks,
                self.mint_refused == old(self).mint_refused,
                self.seq == old(self).seq,
                self.atomic == old(self).atomic,
                self.seen == old(self).seen,
                self.pending == old(self).pending,
                self.schema == old(self).schema,
                self.history == old(self).history,
            decreases b.len() - i,
        {
            let settled = match group_key(&self.buffer[i]) {
                Some(k) => self.resolved_tx.contains_key(&k),
                None => false,
            };
            if settled {
                let mut op = self.buffer[i].clone();
                op.tx = None;
                self.buffer.set(i, op);
            }
            proof {
                assert(old(self)@.buffer[i as int] == b[i as int]@);
            }
            i += 1;
        }
        proof {
            assert(ops_view(self.buffer@) =~= want);
            assert forall|j: int| 0 <= j < self.buffer@.len() implies admissible(
                (#[trigger] self.buffer@[j])@,
            ) by {
                assert(old(self)@.buffer[j] == b[j]@);
                assert(self.buffer@[j]@ == want[j]);
                assert(admissible(b[j]@));
            }
            assert(self@ =~= (DocV { buffer: want, ..old(self)@ }));
        }
    }

    /// Record a group as settled and release whoever waits under it.
    pub(crate) fn resolve_tx(&mut self, key: GroupKey)
        requires
            old(self).wf(),
        ensures
            final(self).wf(),
            final(self)@ == old(self)@.with_resolved(key),
    {
        if self.resolved_tx.contains_key(&key) {
            return;
        }
        self.resolved_tx.insert(key, ());
        proof {
            assert(self@.resolved =~= old(self)@.resolved.insert(key));
            assert(self@ =~= (DocV {
                resolved: old(self)@.resolved.insert(key),
                ..old(self)@
            }));
        }
        self.untag_resolved();
    }

    /// Apply a group's members in order of sequence number; one that cannot apply yet
    /// waits on its own.
    fn commit_group(&mut self, key: GroupKey)
        requires
            old(self).wf(),
        ensures
            final(self).wf(),
            final(self)@ == old(self)@.committed(key),
    {
        let members = self.take_members(key);
        let members = sort_by_seq(members);
        self.resolve_tx(key);
        let ghost start = self@;
        let ghost s = ops_view(members@);
        let mut i: usize = 0;
        proof {
            assert(s.take(0) =~= Seq::empty());
        }
        while i < members.len()
            invariant
                self.wf(),
                s == ops_view(members@),
                i <= members@.len(),
                forall|j: int| 0 <= j < members@.len() ==> admissible((#[trigger] members@[j])@),
                self@ == start.with_members(s.take(i as int)),
            decreases members@.len() - i,
        {
            proof {
                assert(s.take(i + 1).drop_last() =~= s.take(i as int));
                assert(s.take(i + 1).last() == members@[i as int]@);
                assert(admissible(members@[i as int]@));
            }
            if self.tree.ready(&members[i]) {
                self.apply_now(&members[i]);
            } else {
                let mut op = members[i].clone();
                op.tx = None;
                self.hold(op);
            }
            i += 1;
        }
        proof {
            assert(s.take(i as int) =~= s);
        }
    }

    /// Replay what waits and can apply now, until nothing does.
    pub(crate) fn drain_buffer(&mut self)
        requires
            old(self).wf(),
        ensures
            final(self).wf(),
            final(self)@ == old(self)@.drained(),
    {
        reveal(DocV::drained);
        let ghost start = self@;
        loop
            invariant_except_break
                start.drained() == self@.drained(),
            invariant
                self.wf(),
            ensures
                self.wf(),
                self@ == start.drained(),
            decreases tagged(self@.buffer),
        {
            reveal(DocV::drained);
            let ghost d = self@;
            self.drain_plain();
            proof {
                lemma_plain_tagged(d);
            }
            let i: usize = match self.find_complete() {
                Some(i) => i,
                None => {
                    break;
                },
            };
            proof {
                lemma_commit_tagged(self@, i as int);
                assert(self@.buffer[i as int] == self.buffer@[i as int]@);
            }
            match group_key(&self.buffer[i]) {
                Some(key) => self.commit_group(key),
                None => {
                    break;
                },
            }
        }
    }

    /// The group an op in the buffer waits under.
    fn buffered_tx(&self, id: OpId) -> (r: Option<Tx>)
        ensures
            r == match op_at(self@.buffer, id) {
                Some(op) => op.tx,
                None => None,
            },
    {
        let ghost s = self@.buffer;
        let mut i: usize = 0;
        proof {
            assert(s.skip(0) =~= s);
        }
        while i < self.buffer.len()
            invariant
                s == self@.buffer,
                i <= self.buffer@.len(),
                op_at(s, id) == op_at(s.skip(i as int), id),
            decreases self.buffer@.len() - i,
        {
            proof {
                assert(s.skip(i as int)[0] == self.buffer@[i as int]@);
                assert(s.skip(i as int).skip(1) =~= s.skip(i + 1));
            }
            if self.buffer[i].id == id {
                return self.buffer[i].tx;
            }
            i += 1;
        }
        None
    }

    /// Fold a foreign op into local state, telling whether it applied now. It does not if
    /// it is already here, if it has to wait, or if no replica may hold it.
    pub fn apply(&mut self, op: &Op) -> (now: bool)
        requires
            old(self).wf(),
        ensures
            final(self).wf(),
            final(self)@ == old(self)@.with_op(op@),
            now == old(self)@.applies_now(op@),
    {
        if !op.is_admissible() {
            return false;
        }
        let waits = self.buffers(op.id);
        if self.seen.contains_key(&op.id) || waits {
            if waits {
                if let (Some(tx), Some(mine)) = (op.tx, self.buffered_tx(op.id)) {
                    if mine != tx {
                        self.resolve_tx(GroupKey { client: op.id.client, tx: mine.id });
                        self.resolve_tx(GroupKey { client: op.id.client, tx: tx.id });
                        self.drain_buffer();
                    }
                }
            }
            return false;
        }
        let mut op = op.clone();
        if let Some(key) = group_key(&op) {
            if self.resolved_tx.contains_key(&key) {
                op.tx = None;
            }
        }
        if op.tx.is_some() || !self.tree.ready(&op) {
            let grouped = op.tx.is_some();
            let id = op.id;
            let ghost d = self@;
            self.tree.record_stamp(op.stamp, span(&op.kind));
            proof {
                assert(self@ =~= (DocV {
                    tree: d.tree.record(op.stamp, spec_span(op.kind@)),
                    ..d
                }));
            }
            self.hold(op);
            proof {
                assert(self@ =~= d.held(op@));
            }
            if grouped {
                self.drain_buffer();
                return self.seen.contains_key(&id);
            }
            return false;
        }
        self.apply_now(&op);
        proof {
            lemma_drain_keeps_seen(self@);
        }
        self.drain_buffer();
        true
    }

    /// Give up on every atomic group that still waits: its members wait on their own from
    /// here. Returns how many groups were given up on.
    pub fn evict_partial_transactions(&mut self) -> (n: usize)
        requires
            old(self).wf(),
        ensures
            final(self).wf(),
            n == groups_in(old(self)@.buffer).len(),
            final(self)@ == old(self)@.evicted(),
    {
        let mut keys: Table<GroupKey, ()> = Table::new();
        let mut i: usize = 0;
        let ghost s = self@.buffer;
        proof {
            assert(keys@.dom() =~= groups_in(s.take(0)));
        }
        while i < self.buffer.len()
            invariant
                s == self@.buffer,
                keys.wf(),
                i <= self.buffer@.len(),
                keys@.dom() =~= groups_in(s.take(i as int)),
            decreases self.buffer@.len() - i,
        {
            proof {
                assert(self@.buffer[i as int] == self.buffer@[i as int]@);
                assert forall|k: GroupKey|
                    groups_in(s.take(i + 1)).contains(k) <==> groups_in(s.take(i as int)).contains(k)
                        || group_of(s[i as int]) == Some(k) by {
                    lemma_groups_step(s, i as int, k);
                }
            }
            if let Some(k) = group_key(&self.buffer[i]) {
                keys.insert(k, ());
            }
            i += 1;
        }
        proof {
            assert(s.take(i as int) =~= s);
        }
        let n: usize = keys.len();
        if n == 0 {
            proof {
                assert(groups_in(s) =~= Set::empty());
            }
            return 0;
        }
        let ghost d = self@;
        let ghost e = keys.entries@;
        let mut j: usize = 0;
        proof {
            assert(crate::table::seq_map::<GroupKey, ()>(e.take(0)).dom() =~= Set::empty());
            assert(d.resolved.union(Set::empty()) =~= d.resolved);
        }
        while j < keys.entries.len()
            invariant
                self.wf(),
                keys.wf(),
                e == keys.entries@,
                j <= e.len(),
                self@ == (DocV {
                    resolved: d.resolved.union(
                        crate::table::seq_map::<GroupKey, ()>(e.take(j as int)).dom(),
                    ),
                    ..d
                }),
            decreases e.len() - j,
        {
            proof {
                crate::table::lemma_take::<GroupKey, ()>(e, j as int);
            }
            self.resolved_tx.insert(keys.entries[j].0, ());
            proof {
                let r1 = d.resolved.union(
                    crate::table::seq_map::<GroupKey, ()>(e.take(j + 1)).dom(),
                );
                assert(self@.resolved =~= r1);
                assert(self@ =~= (DocV { resolved: r1, ..d }));
            }
            j += 1;
        }
        proof {
            assert(e.take(j as int) =~= e);
        }
        self.untag_resolved();
        proof {
            let r = d.resolved.union(groups_in(s));
            assert(untagged(s, r) =~= s.map_values(|op: OpV| OpV { tx: None, ..op })) by {
                assert forall|k: int| 0 <= k < s.len() implies #[trigger] untagged(s, r)[k]
                    == (OpV { tx: None, ..s[k] }) by {
                    if let Some(key) = group_of(s[k]) {
                        assert(groups_in(s).contains(key));
                    }
                }
            }
        }
        self.drain_buffer();
        n
    }
}

/// The groups some ops belong to.
pub open spec fn groups_in(ops: Seq<OpV>) -> Set<GroupKey> {
    Set::new(|k: GroupKey| exists|i: int| 0 <= i < ops.len() && group_of(#[trigger] ops[i]) == Some(k))
}

proof fn lemma_groups_step(s: Seq<OpV>, i: int, k: GroupKey)
    requires
        0 <= i < s.len(),
    ensures
        groups_in(s.take(i + 1)).contains(k) <==> groups_in(s.take(i)).contains(k) || group_of(s[i])
            == Some(k),
{
    if groups_in(s.take(i)).contains(k) {
        let j = choose|j: int| 0 <= j < i && group_of(#[trigger] s.take(i)[j]) == Some(k);
        assert(s.take(i + 1)[j] == s.take(i)[j]);
    }
    if groups_in(s.take(i + 1)).contains(k) {
        let j = choose|j: int| 0 <= j < i + 1 && group_of(#[trigger] s.take(i + 1)[j]) == Some(k);
        if j < i {
            assert(s.take(i)[j] == s.take(i + 1)[j]);
        }
    }
    if group_of(s[i]) == Some(k) {
        assert(s.take(i + 1)[i] == s[i]);
    }
}

impl DocV {
    /// After every group that waits is given up on.
    pub open spec fn evicted(self) -> DocV {
        let groups = groups_in(self.buffer);
        if groups.len() == 0 {
            self
        } else {
            (DocV {
                resolved: self.resolved.union(groups),
                buffer: self.buffer.map_values(|op: OpV| OpV { tx: None, ..op }),
                ..self
            }).drained()
        }
    }
}

/// Ops in order of sequence number.
fn sort_by_seq(ops: Vec<Op>) -> (out: Vec<Op>)
    requires
        forall|i: int| 0 <= i < ops@.len() ==> admissible((#[trigger] ops@[i])@),
    ensures
        ops_view(out@) == by_seq(ops_view(ops@)),
        forall|i: int| 0 <= i < out@.len() ==> admissible((#[trigger] out@[i])@),
{
    let ghost s = ops_view(ops@);
    let mut out: Vec<Op> = Vec::new();
    let mut i: usize = 0;
    proof {
        assert(s.take(0) =~= Seq::empty());
        assert(ops_view(out@) =~= Seq::empty());
    }
    while i < ops.len()
        invariant
            s == ops_view(ops@),
            i <= ops@.len(),
            forall|j: int| 0 <= j < ops@.len() ==> admissible((#[trigger] ops@[j])@),
            forall|j: int| 0 <= j < out@.len() ==> admissible((#[trigger] out@[j])@),
            ops_view(out@) == by_seq(s.take(i as int)),
        decreases ops@.len() - i,
    {
        proof {
            assert(s.take(i + 1).drop_last() =~= s.take(i as int));
            assert(s.take(i + 1).last() == ops@[i as int]@);
            assert(admissible(ops@[i as int]@));
        }
        let op = ops[i].clone();
        let mut at: usize = out.len();
        let ghost o = ops_view(out@);
        proof {
            assert(o.take(at as int) =~= o);
            assert(o.skip(at as int) =~= Seq::empty());
            assert(put_by_seq(o, op@) =~= put_by_seq(o.take(at as int), op@) + o.skip(at as int));
        }
        while at > 0 && out[at - 1].id.seq > op.id.seq
            invariant
                o == ops_view(out@),
                at <= out@.len(),
                put_by_seq(o, op@) == put_by_seq(o.take(at as int), op@) + o.skip(at as int),
            decreases at,
        {
            proof {
                assert(o.take(at as int).drop_last() =~= o.take(at - 1));
                assert(o.take(at as int).last() == out@[at - 1]@);
                assert(o.skip(at - 1) =~= seq![o[at - 1]] + o.skip(at as int));
                assert(put_by_seq(o.take(at - 1), op@).push(o[at - 1]) + o.skip(at as int)
                    =~= put_by_seq(o.take(at - 1), op@) + o.skip(at - 1));
            }
            at -= 1;
        }
        proof {
            if at > 0 {
                assert(o.take(at as int).last() == out@[at - 1]@);
            }
            assert(put_by_seq(o.take(at as int), op@) == o.take(at as int).push(op@));
            assert(o.take(at as int).push(op@) + o.skip(at as int) =~= o.insert(at as int, op@));
        }
        let ghost before = out@;
        out.insert(at, op);
        proof {
            assert(ops_view(out@) =~= o.insert(at as int, op@));
            assert forall|j: int| 0 <= j < out@.len() implies admissible((#[trigger] out@[j])@) by {
                if j < at {
                    assert(out@[j] == before[j]);
                } else if j > at {
                    assert(out@[j] == before[j - 1]);
                }
            }
        }
        i += 1;
    }
    proof {
        assert(s.take(i as int) =~= s);
    }
    out
}

// --- laws ---

proof fn lemma_plain_keeps_seen(d: DocV)
    ensures
        d.seen.subset_of(d.drained_plain().seen),
    decreases d.buffer.len(),
{
    if let Some(i) = d.first_ready(0) {
        if i < d.buffer.len() {
            let e = (DocV { buffer: d.buffer.remove(i as int), ..d }).applied(d.buffer[i as int]);
            lemma_plain_keeps_seen(e);
        }
    }
}

proof fn lemma_members_keep_seen(d: DocV, ops: Seq<OpV>)
    ensures
        d.seen.subset_of(d.with_members(ops).seen),
    decreases ops.len(),
{
    if ops.len() > 0 {
        lemma_members_keep_seen(d, ops.drop_last());
    }
}

/// What was seen stays seen while the buffer drains.
pub proof fn lemma_drain_keeps_seen(d: DocV)
    ensures
        d.seen.subset_of(d.drained().seen),
    decreases tagged(d.buffer),
{
    reveal(DocV::drained);
    let e = d.drained_plain();
    lemma_plain_keeps_seen(d);
    lemma_plain_tagged(d);
    if let Some(i) = first_complete(e.buffer, 0) {
        lemma_first_complete(e.buffer, 0);
        lemma_commit_tagged(e, i as int);
        let key = group_of(e.buffer[i as int])->Some_0;
        let f = (DocV { buffer: others_of(e.buffer, key), ..e }).with_resolved(key);
        lemma_members_keep_seen(f, by_seq(members_of(e.buffer, key)));
        lemma_drain_keeps_seen(e.committed(key));
    }
}

/// An op no replica may hold leaves every replica as it was.
pub proof fn law_inadmissible_ops_change_nothing(d: DocV, op: OpV)
    requires
        !admissible(op),
    ensures
        d.with_op(op) == d,
        !d.applies_now(op),
{
}

/// An op that waits, sent again as it was, changes nothing.
pub proof fn law_waiting_ops_are_held_once(d: DocV, op: OpV)
    requires
        op_at(d.buffer, op.id) matches Some(mine) && mine.tx == op.tx,
        holds_op(d.buffer, op.id),
    ensures
        d.with_op(op) == d,
        !d.applies_now(op),
{
}

/// What a replica has applied it never forgets.
pub proof fn law_seen_only_grows(d: DocV, op: OpV)
    ensures
        d.seen.subset_of(d.with_op(op).seen),
{
    let o = d.unstrayed(op);
    lemma_drain_keeps_seen(d.held(o));
    lemma_drain_keeps_seen(d.applied(o));
    if let Some(mine) = op_at(d.buffer, op.id) {
        if let (Some(tx), Some(t)) = (op.tx, mine.tx) {
            lemma_drain_keeps_seen(
                d.with_resolved(GroupKey { client: op.id.client, tx: t.id }).with_resolved(
                    GroupKey { client: op.id.client, tx: tx.id },
                ),
            );
        }
    }
}

/// An admissible op outside any group that can apply does, at once.
pub proof fn law_ready_ops_apply_at_once(d: DocV, op: OpV)
    requires
        admissible(op),
        !d.has_op(op.id),
        op.tx is None,
        d.tree.ready(op),
    ensures
        d.applies_now(op),
{
    lemma_drain_keeps_seen(d.applied(op));
    assert(d.applied(op).seen.contains(op.id));
}

} // verus!
