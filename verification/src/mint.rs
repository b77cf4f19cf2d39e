//! Making edits: every local edit mints an id and a causal position, applies at once, and
//! is gathered into the ops to send.

use crate::annot::GroupKey;
use crate::clientid::ClientId;
use crate::doc::{holds_op, untagged, DocV, Document};
use crate::elementid::ElementId;
use crate::fold::in_range;
use crate::format::enc_u64;
use crate::ids::{new_v5, uuid_v5};
use crate::identity::{admissible, mint_position, span, spec_mint_position, spec_span};
use crate::op::{ops_view, Op, OpId, OpKind, OpKindV, OpV, Tx, TxId, MAX_TX_MEMBERS};
use crate::stamp::{Stamp, LAMPORT_STATE_CEILING, LAMPORT_WIRE_CEILING};
use crate::table::{Key, Table};
use crate::undo::{steps_view, HistoryV};
use crate::walk::{same_zone, zone_of_op};
use crate::wire::{be_bits, be_value};
use vstd::prelude::*;

verus! {

/// The sequence number after `n`, counting on from zero past the last.
pub open spec fn next_of(n: u64) -> u64 {
    if n == u64::MAX {
        0
    } else {
        (n + 1) as u64
    }
}

impl DocV {
    /// The first sequence number at or past `from` this replica has not published, after
    /// at most `fuel` that it has.
    pub open spec fn free_from(self, from: u64, fuel: nat) -> u64
        decreases fuel,
    {
        if fuel > 0 && self.has_op(OpId { client: self.client, seq: from }) {
            self.free_from(next_of(from), (fuel - 1) as nat)
        } else {
            from
        }
    }

    /// The first sequence number at or past `from` this replica has not published.
    pub open spec fn free_seq(self, from: u64) -> u64 {
        self.free_from(from, self.seen.len() + self.buffer.len())
    }

    /// What a mint in a partition has to clear: its clock, and everything stamped under
    /// this replica's own id.
    pub open spec fn mint_floor(self, zone: Option<u32>) -> u64 {
        let clock = self.clock(zone);
        if self.tree.high_water.dom().contains(self.client) && self.tree.high_water[self.client]
            > clock {
            self.tree.high_water[self.client]
        } else {
            clock
        }
    }

    /// The stamp an edit would be minted at, if one can be.
    #[verifier::opaque]
    pub open spec fn mint(self, target: ElementId, kind: OpKindV) -> Option<Stamp> {
        if self.mint_refused {
            None
        } else {
            spec_mint_position(
                self.mint_floor(zone_of_op(self.tree, self.schema, target, kind)),
                spec_span(kind),
                self.client,
            )
        }
    }

    /// With what would undo an edit recorded, while recording.
    pub open spec fn with_inverse(self, target: ElementId, kind: OpKindV, stamp: Stamp) -> DocV {
        if self.history.origin is Some {
            DocV {
                history: HistoryV {
                    open: self.history.open + self.tree.inverse(target, kind, stamp),
                    ..self.history
                },
                ..self
            }
        } else {
            self
        }
    }

    /// After an edit: its partition's clock clears what it reserves, its op takes the next
    /// free sequence number, its inverse is recorded, it applies, and its op is pending. An
    /// edit with no stamp to be had changes nothing but that the rest of the intention is
    /// refused too.
    #[verifier::opaque]
    pub open spec fn emitted(self, target: ElementId, kind: OpKindV) -> DocV {
        match self.mint(target, kind) {
            None => DocV { mint_refused: true, ..self },
            Some(stamp) => {
                let zone = zone_of_op(self.tree, self.schema, target, kind);
                let d = self.advanced(zone, (stamp.lamport + spec_span(kind) - 1) as u64);
                let id = OpId { client: d.client, seq: d.free_seq(d.seq) };
                let e = (DocV {
                    seq: next_of(id.seq),
                    seen: d.seen.insert(id),
                    ..d
                }).with_inverse(target, kind, stamp);
                DocV {
                    tree: e.tree.apply_kind(target, kind, stamp, e.client),
                    pending: e.pending.push(OpV { id, stamp, target, kind, tx: None, zone }),
                    ..e
                }
            },
        }
    }

    /// Whether an edit would be recorded into an intention that is already open.
    pub open spec fn in_intention(self) -> bool {
        self.atomic is Some || self.history.depth > 0
    }

    /// At the start of an edit: nothing pending, and, unless it joins an open intention,
    /// nothing refused.
    pub open spec fn begun(self) -> DocV {
        DocV {
            pending: Seq::empty(),
            mint_refused: self.mint_refused && self.in_intention(),
            ..self
        }
    }

    /// At the end of an edit: what waited and can apply has, the intention is closed
    /// unless it belongs to a larger one, and the ops go out, or join the open transaction.
    #[verifier::opaque]
    pub open spec fn ended(self) -> DocV {
        let d = self.drained();
        let history = if d.atomic is None && d.history.depth == 0 {
            d.history.close(false)
        } else {
            d.history
        };
        DocV {
            history,
            pending: Seq::empty(),
            atomic: match d.atomic {
                Some(acc) => Some(acc + d.pending),
                None => None,
            },
            ..d
        }
    }

    /// The ops an edit gives back.
    #[verifier::opaque]
    pub open spec fn edit_ops(self) -> Seq<OpV> {
        let d = self.drained();
        match d.atomic {
            Some(_) => Seq::empty(),
            None => d.pending,
        }
    }
}

// --- grouping ---

/// The sequence numbers of the ops in one partition.
pub open spec fn seqs_in(ops: Seq<OpV>, zone: Option<u32>) -> Seq<u64>
    decreases ops.len(),
{
    if ops.len() == 0 {
        Seq::empty()
    } else {
        let rest = seqs_in(ops.drop_last(), zone);
        if ops.last().zone == zone {
            rest.push(ops.last().id.seq)
        } else {
            rest
        }
    }
}

/// Sequence numbers as bytes.
pub open spec fn enc_seqs(s: Seq<u64>) -> Seq<u8>
    decreases s.len(),
{
    if s.len() == 0 {
        Seq::empty()
    } else {
        enc_seqs(s.drop_last()) + enc_u64(s.last())
    }
}

/// The id of the group with these members: the last eight bytes of the UUIDv5, under the
/// nil namespace, of their sequence numbers.
pub open spec fn group_id(seqs: Seq<u64>) -> TxId {
    TxId(
        (be_value(uuid_v5(Seq::new(16, |i: int| 0u8), enc_seqs(seqs))) % 0x1_0000_0000_0000_0000)
            as u64,
    )
}

/// The group the ops of one partition make, if it has a size one can have.
pub open spec fn group_in(ops: Seq<OpV>, zone: Option<u32>) -> Option<Tx> {
    let seqs = seqs_in(ops, zone);
    if 1 <= seqs.len() <= MAX_TX_MEMBERS {
        Some(Tx { id: group_id(seqs), count: seqs.len() as u32 })
    } else {
        None
    }
}

/// Ops tagged as atomic groups, one for each partition they fall in.
pub open spec fn grouped_ops(ops: Seq<OpV>) -> Seq<OpV> {
    ops.map_values(|op: OpV| OpV { tx: group_in(ops, op.zone), ..op })
}

/// The groups an author's ops make.
pub open spec fn groups_made(client: ClientId, ops: Seq<OpV>) -> Set<GroupKey> {
    Set::new(
        |k: GroupKey|
            k.client == client && exists|i: int|
                #![trigger ops[i]]
                0 <= i < ops.len() && (group_in(ops, ops[i].zone) matches Some(tx) && tx.id == k.tx),
    )
}

impl DocV {
    /// After a commit's ops are grouped: each group is settled here, so a stray that comes
    /// later merges on its own, as it does at every receiver.
    #[verifier::opaque]
    pub open spec fn grouped(self, ops: Seq<OpV>) -> DocV {
        let made = groups_made(self.client, ops);
        if made == Set::<GroupKey>::empty() {
            self
        } else {
            let resolved = self.resolved.union(made);
            (DocV { resolved, buffer: untagged(self.buffer, resolved), ..self }).drained()
        }
    }

    /// After an open transaction is committed.
    #[verifier::opaque]
    pub open spec fn committed_atomic(self) -> DocV {
        match self.atomic {
            None => self,
            Some(ops) => (DocV {
                atomic: None,
                history: self.history.close(true),
                ..self
            }).grouped(ops),
        }
    }
}

// --- minting ---

impl Document {
    fn free_seq(&self, from: u64) -> (seq: u64)
        requires
            self.wf(),
        ensures
            seq == self@.free_seq(from),
    {
        let fuel: u128 = self.seen.len() as u128 + self.buffer.len() as u128;
        let mut left: u128 = fuel;
        let mut seq: u64 = from;
        while left > 0
            invariant
                self.wf(),
                fuel == self@.seen.len() + self@.buffer.len(),
                left <= fuel,
                self@.free_from(from, fuel as nat) == self@.free_from(seq, left as nat),
            decreases left,
        {
            let id = OpId { client: self.client, seq };
            if !self.seen.contains_key(&id) && !self.buffers(id) {
                return seq;
            }
            seq = if seq == u64::MAX {
                0
            } else {
                seq + 1
            };
            left -= 1;
        }
        seq
    }

    /// The next sequence number this replica will mint: the first it has not published.
    pub fn next_seq(&self) -> (seq: u64)
        requires
            self.wf(),
        ensures
            seq == self@.free_seq(self@.seq),
    {
        self.free_seq(self.seq)
    }

    /// Take over a decoded snapshot as `client`, authoring from `next_seq`.
    pub fn adopt_as(&mut self, client: ClientId, next_seq: u64)
        requires
            old(self).wf(),
        ensures
            final(self).wf(),
            final(self)@ == (DocV { client, seq: next_seq, ..old(self)@ }),
    {
        self.client = client;
        self.seq = next_seq;
    }

    fn mint_floor(&self, zone: Option<u32>) -> (n: u64)
        requires
            self.wf(),
        ensures
            n == self@.mint_floor(zone),
    {
        let clock: u64 = self.clock(zone);
        match self.tree.high_water.get(&self.client) {
            Some(own) => if *own > clock {
                *own
            } else {
                clock
            },
            None => clock,
        }
    }

    /// Whether this replica still holds an unspent id in a partition.
    pub fn can_mint(&self, zone: Option<u32>) -> (b: bool)
        requires
            self.wf(),
        ensures
            b == (self@.mint_floor(zone) < LAMPORT_STATE_CEILING),
    {
        mint_position(self.mint_floor(zone), 1, self.client).is_some()
    }

    /// Whether an edit of the intention most recently opened was refused for want of an
    /// id.
    pub fn mint_refused(&self) -> (b: bool)
        ensures
            b == self@.mint_refused,
    {
        self.mint_refused
    }

    /// Mint an identity and a causal position for an edit, apply it, and record its op.
    /// Returns the stamp minted, or nothing if none could be.
    pub(crate) fn emit_stamped(&mut self, target: ElementId, kind: OpKind) -> (r: Option<Stamp>)
        requires
            old(self).wf(),
        ensures
            final(self).wf(),
            r == old(self)@.mint(target, kind@),
            r matches Some(s) ==> s.offset == 0,
            final(self)@ == old(self)@.emitted(target, kind@),
    {
        reveal(DocV::emitted);
        reveal(DocV::mint);
        let zone = self.tree.zone_of_op(&self.schema, target, &kind);
        if self.mint_refused {
            proof {
                assert(self@ =~= (DocV { mint_refused: true, ..old(self)@ }));
            }
            return None;
        }
        let n: u64 = span(&kind);
        let stamp = match mint_position(self.mint_floor(zone), n, self.client) {
            Some(s) => s,
            None => {
                self.mint_refused = true;
                proof {
                    assert(self@ =~= (DocV { mint_refused: true, ..old(self)@ }));
                }
                return None;
            },
        };
        self.advance_clock(zone, stamp.lamport + (n - 1));
        let ghost d = self@;
        let seq: u64 = self.free_seq(self.seq);
        let id = OpId { client: self.client, seq };
        self.seq = if seq == u64::MAX {
            0
        } else {
            seq + 1
        };
        self.seen.insert(id, ());
        proof {
            assert(self@.seen =~= d.seen.insert(id));
            assert(self@ =~= (DocV { seq: next_of(id.seq), seen: d.seen.insert(id), ..d }));
        }
        self.record_inverse(target, &kind, stamp);
        let author = self.client;
        self.tree.apply_kind(target, &kind, stamp, author);
        let ghost pend = self.pending@;
        let op = Op { id, stamp, target, kind, tx: None, zone };
        let ghost ov = op@;
        self.pending.push(op);
        proof {
            assert(ops_view(self.pending@) =~= ops_view(pend).push(ov));
            assert(self@ =~= old(self)@.emitted(target, kind@));
        }
        Some(stamp)
    }

    /// Record what would undo an edit, while recording.
    fn record_inverse(&mut self, target: ElementId, kind: &OpKind, stamp: Stamp)
        requires
            old(self).wf(),
            in_range(stamp, kind@),
        ensures
            final(self).wf(),
            final(self)@ == old(self)@.with_inverse(target, kind@, stamp),
    {
        if !self.history.recording() {
            return;
        }
        let mut steps = self.tree.inverse(target, kind, stamp);
        let ghost all = steps_view(steps@);
        let ghost h = self.history@;
        let ghost mut done: int = 0;
        proof {
            assert(h.open + all.take(0) =~= h.open);
            assert(all.skip(0) =~= all);
        }
        while steps.len() > 0
            invariant
                self.wf(),
                0 <= done <= all.len(),
                steps_view(steps@) == all.skip(done),
                self@ == (DocV {
                    history: HistoryV { open: h.open + all.take(done), ..h },
                    ..old(self)@
                }),
                h == old(self)@.history,
            decreases steps@.len(),
        {
            let ghost before = steps@;
            proof {
                assert(steps_view(before).len() == before.len());
                assert(done < all.len());
            }
            let step = steps.remove(0);
            proof {
                assert(steps_view(before)[0] == step@);
                assert(all.skip(done)[0] == all[done]);
                assert(steps@ =~= before.skip(1));
                assert forall|k: int| 0 <= k < steps@.len() implies #[trigger] steps_view(steps@)[k]
                    == all.skip(done + 1)[k] by {
                    assert(steps_view(before)[k + 1] == all.skip(done)[k + 1]);
                }
                assert(steps_view(steps@) =~= all.skip(done + 1));
            }
            self.history.push(step);
            proof {
                assert((h.open + all.take(done)).push(all[done]) =~= h.open + all.take(done + 1));
                done = done + 1;
                assert(self@ =~= (DocV {
                    history: HistoryV { open: h.open + all.take(done), ..h },
                    ..old(self)@
                }));
            }
        }
        proof {
            assert(all.skip(done).len() == 0);
            assert(all.take(done) =~= all);
            assert(self@ =~= old(self)@.with_inverse(target, kind@, stamp));
        }
    }

    /// Make an edit.
    pub(crate) fn emit(&mut self, target: ElementId, kind: OpKind)
        requires
            old(self).wf(),
        ensures
            final(self).wf(),
            final(self)@ == old(self)@.emitted(target, kind@),
    {
        let _ = self.emit_stamped(target, kind);
    }

    // --- transactions ---

    pub(crate) fn recording_intention(&self) -> (b: bool)
        ensures
            b == self@.in_intention(),
    {
        self.atomic.is_some() || self.history.grouped()
    }

    /// Begin an edit: the edits from here to [`end_transact`](Self::end_transact) are one
    /// intention, unless they join a larger one.
    pub fn begin_transact(&mut self)
        requires
            old(self).wf(),
        ensures
            final(self).wf(),
            final(self)@ == old(self)@.begun(),
    {
        self.pending = Vec::new();
        if !self.recording_intention() {
            self.mint_refused = false;
        }
        proof {
            assert(self@ =~= old(self)@.begun());
        }
    }

    /// End an edit and return its ops: none while an atomic transaction is open, which
    /// gathers them instead.
    pub fn end_transact(&mut self) -> (ops: Vec<Op>)
        requires
            old(self).wf(),
        ensures
            final(self).wf(),
            final(self)@ == old(self)@.ended(),
            ops_view(ops@) == old(self)@.edit_ops(),
    {
        reveal(DocV::ended);
        reveal(DocV::edit_ops);
        self.drain_buffer();
        let mut ops: Vec<Op> = Vec::new();
        std::mem::swap(&mut ops, &mut self.pending);
        proof {
            assert(ops_view(self.pending@) =~= Seq::empty());
        }
        if self.atomic.is_none() && !self.history.grouped() {
            self.history.close(false);
        }
        let mut acc: Option<Vec<Op>> = None;
        std::mem::swap(&mut acc, &mut self.atomic);
        match acc {
            Some(mut all) => {
                let ghost a = all@;
                let ghost o = ops@;
                all.append(&mut ops);
                proof {
                    assert(ops_view(all@) =~= ops_view(a) + ops_view(o));
                    assert(ops_view(ops@) =~= Seq::empty());
                }
                self.atomic = Some(all);
                proof {
                    assert(self@ =~= old(self)@.ended());
                }
                ops
            },
            None => {
                proof {
                    assert(self@ =~= old(self)@.ended());
                }
                ops
            },
        }
    }

    /// Begin an atomic transaction: until [`commit_atomic`](Self::commit_atomic) every
    /// edit gathers into one group. A second begin joins the open one.
    pub fn begin_atomic(&mut self)
        requires
            old(self).wf(),
        ensures
            final(self).wf(),
            final(self)@ == if old(self)@.atomic is Some {
                old(self)@
            } else {
                DocV {
                    atomic: Some(Seq::empty()),
                    mint_refused: old(self)@.mint_refused && old(self)@.in_intention(),
                    ..old(self)@
                }
            },
    {
        if self.atomic.is_none() {
            if !self.recording_intention() {
                self.mint_refused = false;
            }
            self.atomic = Some(Vec::new());
            proof {
                assert(self@.atomic->Some_0 =~= Seq::empty());
                assert(self@ =~= (DocV {
                    atomic: Some(Seq::empty()),
                    mint_refused: old(self)@.mint_refused && old(self)@.in_intention(),
                    ..old(self)@
                }));
            }
        }
    }

    /// Close the open atomic transaction and return its ops, one group for each partition
    /// they fall in. A group of a size none can have streams ungrouped.
    pub fn commit_atomic(&mut self) -> (ops: Vec<Op>)
        requires
            old(self).wf(),
        ensures
            final(self).wf(),
            final(self)@ == old(self)@.committed_atomic(),
            ops_view(ops@) == match old(self)@.atomic {
                Some(ops) => grouped_ops(ops),
                None => Seq::empty(),
            },
    {
        reveal(DocV::committed_atomic);
        let mut taken: Option<Vec<Op>> = None;
        std::mem::swap(&mut taken, &mut self.atomic);
        match taken {
            None => {
                let none: Vec<Op> = Vec::new();
                proof {
                    assert(ops_view(none@) =~= Seq::empty());
                    assert(self@ =~= old(self)@);
                }
                none
            },
            Some(ops) => {
                self.history.close(true);
                proof {
                    assert(self@ =~= (DocV {
                        atomic: None,
                        history: old(self)@.history.close(true),
                        ..old(self)@
                    }));
                }
                self.tag_atomic(ops)
            },
        }
    }

    /// Whether an atomic transaction is open.
    pub fn is_atomic(&self) -> (b: bool)
        ensures
            b == self@.atomic is Some,
    {
        self.atomic.is_some()
    }

    /// Tag a commit's ops as atomic groups, one for each partition.
    fn tag_atomic(&mut self, ops: Vec<Op>) -> (out: Vec<Op>)
        requires
            old(self).wf(),
        ensures
            final(self).wf(),
            final(self)@ == old(self)@.grouped(ops_view(ops@)),
            ops_view(out@) == grouped_ops(ops_view(ops@)),
    {
        reveal(DocV::grouped);
        let ghost s = ops_view(ops@);
        let ghost made = groups_made(self.client, s);
        let mut out: Vec<Op> = Vec::new();
        let mut keys: Table<GroupKey, ()> = Table::new();
        let mut i: usize = 0;
        proof {
            assert(ops_view(out@) =~= grouped_ops(s).take(0));
        }
        while i < ops.len()
            invariant
                s == ops_view(ops@),
                keys.wf(),
                i <= ops@.len(),
                ops_view(out@) =~= grouped_ops(s).take(i as int),
                made == groups_made(self.client, s),
                forall|k: GroupKey| #[trigger] keys@.dom().contains(k) ==> made.contains(k),
                forall|j: int|
                    #![trigger s[j]]
                    0 <= j < i ==> (group_in(s, s[j].zone) matches Some(tx) ==> keys@.dom().contains(
                        GroupKey { client: self.client, tx: tx.id },
                    )),
            decreases ops@.len() - i,
        {
            let tx = group_of_zone(&ops, ops[i].zone);
            proof {
                assert(s[i as int] == ops@[i as int]@);
            }
            if let Some(t) = tx {
                let key = GroupKey { client: self.client, tx: t.id };
                keys.insert(key, ());
                proof {
                    assert(made.contains(key));
                }
            }
            let mut op = ops[i].clone();
            op.tx = tx;
            let ghost ov = op@;
            let ghost o = ops_view(out@);
            out.push(op);
            proof {
                assert(ops_view(out@) =~= o.push(ov));
                assert(grouped_ops(s)[i as int] == ov);
            }
            i += 1;
        }
        proof {
            assert(grouped_ops(s).take(i as int) =~= grouped_ops(s));
            assert(keys@.dom() =~= made) by {
                assert forall|k: GroupKey| made.contains(k) implies keys@.dom().contains(k) by {
                    let j = choose|j: int|
                        #![trigger s[j]]
                        0 <= j < s.len() && (group_in(s, s[j].zone) matches Some(tx) && tx.id
                            == k.tx);
                    assert(keys@.dom().contains(GroupKey { client: self.client, tx: k.tx }));
                }
            }
        }
        if keys.entries.len() == 0 {
            proof {
                crate::table::lemma_size::<GroupKey, ()>(keys.entries@);
                assert(made =~= Set::<GroupKey>::empty());
            }
            return out;
        }
        proof {
            crate::table::lemma_entry::<GroupKey, ()>(keys.entries@, 0);
            assert(made.contains(keys.entries@[0].0));
        }
        self.settle_groups(&keys);
        self.drain_buffer();
        out
    }

    /// Record groups as settled and release whoever waits under one.
    fn settle_groups(&mut self, keys: &Table<GroupKey, ()>)
        requires
            old(self).wf(),
            keys.wf(),
        ensures
            final(self).wf(),
            final(self)@ == (DocV {
                resolved: old(self)@.resolved.union(keys@.dom()),
                buffer: untagged(
                    old(self)@.buffer,
                    old(self)@.resolved.union(keys@.dom()),
                ),
                ..old(self)@
            }),
    {
        let ghost d = self@;
        let ghost e = keys.entries@;
        let mut j: usize = 0;
        proof {
            assert(crate::table::seq_map::<GroupKey, ()>(e.take(0)).dom() =~= Set::empty());
            assert(d.resolved.union(Set::empty()) =~= d.resolved);
        }
        while j < keys.entries.len()
            invariant
                self.wf(),
                keys.wf(),
                e == keys.entries@,
                j <= e.len(),
                self@ == (DocV {
                    resolved: d.resolved.union(
                        crate::table::seq_map::<GroupKey, ()>(e.take(j as int)).dom(),
                    ),
                    ..d
                }),
            decreases e.len() - j,
        {
            proof {
                crate::table::lemma_take::<GroupKey, ()>(e, j as int);
            }
            self.resolved_tx.insert(keys.entries[j].0, ());
            proof {
                let r1 = d.resolved.union(
                    crate::table::seq_map::<GroupKey, ()>(e.take(j + 1)).dom(),
                );
                assert(self@.resolved =~= r1);
                assert(self@ =~= (DocV { resolved: r1, ..d }));
            }
            j += 1;
        }
        proof {
            assert(e.take(j as int) =~= e);
        }
        self.untag_resolved();
    }

    // --- intentions ---

    /// Open an intention: every edit until [`end_intention`](Self::end_intention) is one
    /// undo step. Nests.
    pub fn begin_intention(&mut self)
        requires
            old(self).wf(),
            old(self)@.history.depth < usize::MAX,
        ensures
            final(self).wf(),
            final(self)@ == (DocV {
                mint_refused: old(self)@.mint_refused && old(self)@.in_intention(),
                history: HistoryV {
                    depth: old(self)@.history.depth + 1,
                    ..old(self)@.history
                },
                ..old(self)@
            }),
    {
        if !self.recording_intention() {
            self.mint_refused = false;
        }
        self.history.open_group();
        proof {
            assert(self@ =~= (DocV {
                mint_refused: old(self)@.mint_refused && old(self)@.in_intention(),
                history: HistoryV {
                    depth: old(self)@.history.depth + 1,
                    ..old(self)@.history
                },
                ..old(self)@
            }));
        }
    }

    /// Close an intention; the outermost close records the step, unless an atomic
    /// transaction is still open.
    pub fn end_intention(&mut self)
        requires
            old(self).wf(),
        ensures
            final(self).wf(),
            final(self)@ == old(self)@.intention_ended(),
    {
        if self.history.close_group() && self.atomic.is_none() {
            self.history.close(false);
        }
        proof {
            assert(self@ =~= old(self)@.intention_ended());
        }
    }

    /// Record edits under `origin` from now on.
    pub fn set_undo_origin(&mut self, origin: &[u8])
        requires
            old(self).wf(),
        ensures
            final(self).wf(),
            final(self)@ == (DocV {
                history: HistoryV { origin: Some(origin@), ..old(self)@.history },
                ..old(self)@
            }),
    {
        self.history.track(origin);
        proof {
            assert(self@ =~= (DocV {
                history: HistoryV { origin: Some(origin@), ..old(self)@.history },
                ..old(self)@
            }));
        }
    }

    /// Stop recording. What is recorded stays undoable.
    pub fn clear_undo_origin(&mut self)
        requires
            old(self).wf(),
        ensures
            final(self).wf(),
            final(self)@ == (DocV {
                history: HistoryV { origin: None, ..old(self)@.history },
                ..old(self)@
            }),
    {
        self.history.untrack();
        proof {
            assert(self@ =~= (DocV {
                history: HistoryV { origin: None, ..old(self)@.history },
                ..old(self)@
            }));
        }
    }

    /// The origin edits are recorded under, if they are.
    pub fn undo_origin(&self) -> (r: Option<&Vec<u8>>)
        ensures
            match r {
                Some(o) => self@.history.origin == Some(o@),
                None => self@.history.origin is None,
            },
    {
        match &self.history.origin {
            Some(o) => Some(o),
            None => None,
        }
    }

    /// Whether `origin` has an intention to undo.
    pub fn can_undo(&self, origin: &[u8]) -> (b: bool)
        ensures
            b == self@.history.can(origin@, crate::undo::Landing::Undo),
    {
        self.history.can(origin, crate::undo::Landing::Undo)
    }

    /// Whether `origin` has an undone intention to redo.
    pub fn can_redo(&self, origin: &[u8]) -> (b: bool)
        ensures
            b == self@.history.can(origin@, crate::undo::Landing::Redo),
    {
        self.history.can(origin, crate::undo::Landing::Redo)
    }
}

impl DocV {
    pub open spec fn intention_ended(self) -> DocV {
        let h = HistoryV {
            depth: if self.history.depth == 0 {
                0
            } else {
                (self.history.depth - 1) as nat
            },
            ..self.history
        };
        DocV {
            history: if self.history.depth == 1 && self.atomic is None {
                h.close(false)
            } else {
                h
            },
            ..self
        }
    }
}

/// The id of the group with these members.
fn derive_group(seqs: &Vec<u64>) -> (id: TxId)
    ensures
        id == group_id(seqs@),
{
    let mut name: Vec<u8> = Vec::new();
    let mut i: usize = 0;
    proof {
        assert(seqs@.take(0) =~= Seq::empty());
        assert(name@ =~= Seq::empty());
    }
    while i < seqs.len()
        invariant
            i <= seqs@.len(),
            name@ == enc_seqs(seqs@.take(i as int)),
        decreases seqs@.len() - i,
    {
        proof {
            assert(seqs@.take(i + 1).drop_last() =~= seqs@.take(i as int));
        }
        crate::codec::put_u64(&mut name, seqs[i]);
        i += 1;
    }
    proof {
        assert(seqs@.take(i as int) =~= seqs@);
    }
    let nil: [u8; 16] = [0u8;16];
    let bytes: [u8; 16] = new_v5(nil, name.as_slice());
    proof {
        assert(nil@ =~= Seq::new(16, |i: int| 0u8));
    }
    let bits: u128 = be_bits(&bytes);
    TxId((bits % 0x1_0000_0000_0000_0000) as u64)
}

/// The group the ops of one partition make.
fn group_of_zone(ops: &Vec<Op>, zone: Option<u32>) -> (r: Option<Tx>)
    ensures
        r == group_in(ops_view(ops@), zone),
{
    let ghost s = ops_view(ops@);
    let mut seqs: Vec<u64> = Vec::new();
    let mut i: usize = 0;
    proof {
        assert(s.take(0) =~= Seq::empty());
        assert(seqs@ =~= Seq::empty());
    }
    while i < ops.len()
        invariant
            s == ops_view(ops@),
            i <= ops@.len(),
            seqs@ == seqs_in(s.take(i as int), zone),
        decreases ops@.len() - i,
    {
        proof {
            assert(s.take(i + 1).drop_last() =~= s.take(i as int));
            assert(s.take(i + 1).last() == ops@[i as int]@);
        }
        if same_zone(ops[i].zone, zone) {
            seqs.push(ops[i].id.seq);
        }
        i += 1;
    }
    proof {
        assert(s.take(i as int) =~= s);
    }
    let n: usize = seqs.len();
    if n == 0 || n as u64 > MAX_TX_MEMBERS as u64 {
        return None;
    }
    Some(Tx { id: derive_group(&seqs), count: n as u32 })
}

// --- laws ---

/// The sequence number `k` past `n`.
spec fn nth_of(n: u64, k: nat) -> u64 {
    ((n + k) % 0x1_0000_0000_0000_0000) as u64
}

proof fn lemma_free_walk(d: DocV, from: u64, fuel: nat)
    requires
        fuel < 0x1_0000_0000_0000_0000,
    ensures
        !d.has_op(OpId { client: d.client, seq: d.free_from(from, fuel) }) || (d.free_from(from, fuel)
            == nth_of(from, fuel) && forall|k: nat|
            k < fuel ==> d.has_op(OpId { client: d.client, seq: #[trigger] nth_of(from, k) })),
    decreases fuel,
{
    if fuel == 0 {
        assert(nth_of(from, 0) == from);
    } else if d.has_op(OpId { client: d.client, seq: from }) {
        let next = next_of(from);
        lemma_free_walk(d, next, (fuel - 1) as nat);
        assert forall|k: nat| nth_of(next, k) == #[trigger] nth_of(from, k + 1) by {
            vstd::arithmetic::div_mod::lemma_mod_multiples_vanish(
                1,
                (from + k + 1) - 0x1_0000_0000_0000_0000,
                0x1_0000_0000_0000_0000,
            );
        }
        if d.has_op(OpId { client: d.client, seq: d.free_from(from, fuel) }) {
            assert(nth_of(next, (fuel - 1) as nat) == nth_of(from, ((fuel - 1) + 1) as nat));
            assert forall|k: nat| k < fuel implies d.has_op(
                OpId { client: d.client, seq: #[trigger] nth_of(from, k) },
            ) by {
                if k == 0 {
                    assert(nth_of(from, 0) == from);
                } else {
                    assert(nth_of(next, (k - 1) as nat) == nth_of(from, ((k - 1) + 1) as nat));
                }
            }
        }
    }
}

/// The ids of some ops.
spec fn ids_of(ops: Seq<OpV>) -> Set<OpId>
    decreases ops.len(),
{
    if ops.len() == 0 {
        Set::empty()
    } else {
        ids_of(ops.drop_last()).insert(ops.last().id)
    }
}

proof fn lemma_ids_of(ops: Seq<OpV>)
    ensures
        ids_of(ops).finite(),
        ids_of(ops).len() <= ops.len(),
        forall|id: OpId| #[trigger] ids_of(ops).contains(id) <==> holds_op(ops, id),
    decreases ops.len(),
{
    if ops.len() > 0 {
        let t = ops.drop_last();
        lemma_ids_of(t);
        assert forall|id: OpId| #[trigger] ids_of(ops).contains(id) <==> holds_op(ops, id) by {
            if holds_op(t, id) {
                let i = choose|i: int| 0 <= i < t.len() && (#[trigger] t[i]).id == id;
                assert(ops[i].id == id);
            }
            if holds_op(ops, id) && id != ops.last().id {
                let i = choose|i: int| 0 <= i < ops.len() && (#[trigger] ops[i]).id == id;
                assert(t[i].id == id);
            }
            if id == ops.last().id {
                assert(ops[ops.len() - 1].id == id);
            }
        }
    }
}

/// Ids that are all different, all held.
proof fn lemma_distinct_ids(d: DocV, held: Set<OpId>, from: u64, n: nat) -> (s: Set<OpId>)
    requires
        n <= 0x1_0000_0000_0000_0000,
        forall|k: nat|
            k < n ==> held.contains(OpId { client: d.client, seq: #[trigger] nth_of(from, k) }),
    ensures
        s.finite(),
        s.len() == n,
        s.subset_of(held),
        forall|id: OpId| #[trigger]
            s.contains(id) ==> exists|k: nat|
                k < n && id == (OpId { client: d.client, seq: #[trigger] nth_of(from, k) }),
    decreases n,
{
    if n == 0 {
        Set::empty()
    } else {
        let k = (n - 1) as nat;
        let s = lemma_distinct_ids(d, held, from, k);
        let id = OpId { client: d.client, seq: nth_of(from, k) };
        if s.contains(id) {
            let j = choose|j: nat|
                j < k && id == (OpId { client: d.client, seq: #[trigger] nth_of(from, j) });
            lemma_nth_differs(from, j, k);
        }
        assert forall|x: OpId| #[trigger] s.insert(id).contains(x) implies exists|j: nat|
            j < n && x == (OpId { client: d.client, seq: #[trigger] nth_of(from, j) }) by {
            if x == id {
                assert(x == (OpId { client: d.client, seq: nth_of(from, k) }));
            } else {
                let j = choose|j: nat|
                    j < k && x == (OpId { client: d.client, seq: #[trigger] nth_of(from, j) });
                assert(x == (OpId { client: d.client, seq: nth_of(from, j) }));
            }
        }
        assert(held.contains(OpId { client: d.client, seq: nth_of(from, k) }));
        s.insert(id)
    }
}

proof fn lemma_nth_differs(from: u64, j: nat, k: nat)
    requires
        j < k < 0x1_0000_0000_0000_0000,
    ensures
        nth_of(from, j) != nth_of(from, k),
{
    let m: int = 0x1_0000_0000_0000_0000;
    let a = from + j;
    let b = from + k;
    if a % m == b % m {
        vstd::arithmetic::div_mod::lemma_fundamental_div_mod(a, m);
        vstd::arithmetic::div_mod::lemma_fundamental_div_mod(b, m);
        let q = b / m - a / m;
        assert(b - a == m * q) by (nonlinear_arith)
            requires
                a == m * (a / m) + a % m,
                b == m * (b / m) + b % m,
                a % m == b % m,
                q == b / m - a / m,
        ;
        assert(false) by (nonlinear_arith)
            requires
                b - a == m * q,
                0 < b - a < m,
                m > 0,
        ;
    }
}

/// A sequence number a replica mints names no op it has applied or holds: an id is never
/// given out twice.
pub proof fn law_minted_ids_are_new(d: DocV, from: u64)
    requires
        d.seen.finite(),
        d.seen.len() + d.buffer.len() < 0x1_0000_0000_0000_0000,
    ensures
        !d.has_op(OpId { client: d.client, seq: d.free_seq(from) }),
{
    let n = d.seen.len() + d.buffer.len();
    lemma_free_walk(d, from, n);
    if d.has_op(OpId { client: d.client, seq: d.free_seq(from) }) {
        lemma_ids_of(d.buffer);
        let held = d.seen.union(ids_of(d.buffer));
        vstd::set_lib::lemma_set_disjoint_lens(d.seen, ids_of(d.buffer).difference(d.seen));
        assert(d.seen + ids_of(d.buffer).difference(d.seen) =~= held);
        vstd::set_lib::lemma_len_subset(
            ids_of(d.buffer).difference(d.seen),
            ids_of(d.buffer),
        );
        assert forall|k: nat| k < n + 1 implies held.contains(
            OpId { client: d.client, seq: #[trigger] nth_of(from, k) },
        ) by {
            assert(d.has_op(OpId { client: d.client, seq: nth_of(from, k) }));
        }
        let s = lemma_distinct_ids(d, held, from, n + 1);
        vstd::set_lib::lemma_len_subset(s, held);
    }
}

/// A mint clears everything stamped under this replica's id and the partition's clock.
pub proof fn law_mints_clear_the_record(d: DocV, target: ElementId, kind: OpKindV)
    ensures
        d.mint(target, kind) matches Some(s) ==> s.client == d.client && s.lamport > d.clock(
            zone_of_op(d.tree, d.schema, target, kind),
        ) && (d.tree.high_water.dom().contains(d.client) ==> s.lamport
            > d.tree.high_water[d.client]),
{
    reveal(DocV::mint);
}

/// A refused edit leaves the state and the ops as they were.
pub proof fn law_refused_edits_emit_nothing(d: DocV, target: ElementId, kind: OpKindV)
    requires
        d.mint(target, kind) is None,
    ensures
        d.emitted(target, kind).tree == d.tree,
        d.emitted(target, kind).pending == d.pending,
        d.emitted(target, kind).mint_refused,
{
    reveal(DocV::emitted);
}

/// Every edit that is made is one every replica admits, and its author holds its id.
pub proof fn law_emitted_ops_are_admissible(d: DocV, target: ElementId, kind: OpKindV)
    requires
        d.mint(target, kind) is Some,
    ensures
        d.emitted(target, kind).pending.len() == d.pending.len() + 1,
        admissible(d.emitted(target, kind).pending.last()),
        d.emitted(target, kind).seen.contains(d.emitted(target, kind).pending.last().id),
{
    reveal(DocV::emitted);
    reveal(DocV::mint);
    let e = d.emitted(target, kind);
    assert(e.pending.len() == d.pending.len() + 1);
}

/// An edit is what its op does: the replica that makes it has the state and the applied ops
/// that folding the op in leads to, and the clocks too below the ceiling of a fold.
pub proof fn law_an_edit_is_what_its_op_does(d: DocV, target: ElementId, kind: OpKindV)
    requires
        d.mint(target, kind) is Some,
    ensures
        ({
            let e = d.emitted(target, kind);
            let a = d.applied(e.pending.last());
            &&& e.tree == a.tree
            &&& e.seen == a.seen
            &&& e.buffer == a.buffer
            &&& e.resolved == a.resolved
            &&& d.mint(target, kind)->Some_0.lamport + spec_span(kind) - 1 <= LAMPORT_WIRE_CEILING
                ==> e.lamport == a.lamport && e.zone_clocks == a.zone_clocks
        }),
{
    reveal(DocV::emitted);
    reveal(DocV::mint);
}

} // verus!
