//! What a replica lives through: ops that arrive, edits of its own, and transactions.

use crate::annot::GroupKey;
use crate::authored::{named_well, stamp_of, stamped_well, stamps_apart, writes_of};
use crate::client::with_ops;
use crate::clientid::ClientId;
use crate::commute::{apart, born, child_container, run_drops, run_puts};
use crate::converge::raised;
use crate::deliver::{
    agree, authored, bare, bares, by_id, figures, freed, grouped, kept, lemma_absorbed, lemma_agree, lemma_arrives,
    lemma_deliver, lemma_drain, lemma_enter, lemma_grouped_within, lemma_has, lemma_pushed,
    lemma_start, lemma_waits_once, quiet, ran_of, shown, stands, stands_at, waits_of,
};
use crate::doc::{group_of, members_of, untagged, DocV};
use crate::elementid::ElementId;
use crate::gist::child_of;
use crate::identity::{
    admissible, spec_payload_id, spec_ranged_id, spec_reservation_end, spec_span,
};
use crate::mint::{groups_made, law_minted_ids_are_new, law_mints_clear_the_record};
use crate::op::{OpId, OpKindV, OpV};
use crate::ranged::RangedInitV;
use crate::stamp::LAMPORT_WIRE_CEILING;
use crate::tree::TreeV;
use crate::walk::zone_of_op;
use vstd::prelude::*;

verus! {

/// What happens to a replica: an op arrives, it makes edits, begins an atomic transaction,
/// or commits one.
pub enum TurnV {
    Arrives(OpV),
    Edits(Seq<(ElementId, OpKindV)>),
    Begins,
    Commits,
}

impl DocV {
    /// The op an edit publishes, if a stamp is to be had.
    pub open spec fn edit_op(self, target: ElementId, kind: OpKindV) -> Option<OpV> {
        match self.mint(target, kind) {
            None => None,
            Some(stamp) => Some(
                OpV {
                    id: OpId { client: self.client, seq: self.free_seq(self.seq) },
                    stamp,
                    target,
                    kind,
                    tx: None,
                    zone: zone_of_op(self.tree, self.schema, target, kind),
                },
            ),
        }
    }

    /// After edits, before they end.
    pub open spec fn edited(self, edits: Seq<(ElementId, OpKindV)>) -> DocV
        decreases edits.len(),
    {
        if edits.len() == 0 {
            self
        } else {
            self.edited(edits.drop_last()).emitted(edits.last().0, edits.last().1)
        }
    }

    /// The ops that edits publish.
    pub open spec fn edits_heard(self, edits: Seq<(ElementId, OpKindV)>) -> Seq<OpV>
        decreases edits.len(),
    {
        if edits.len() == 0 {
            Seq::empty()
        } else {
            let rest = self.edits_heard(edits.drop_last());
            match self.edited(edits.drop_last()).edit_op(edits.last().0, edits.last().1) {
                Some(o) => rest.push(o),
                None => rest,
            }
        }
    }

    /// Whether each edit is of what is there, its id is to be had, and its reservation is
    /// one that other replicas' clocks follow.
    pub open spec fn edits_here(self, edits: Seq<(ElementId, OpKindV)>) -> bool
        decreases edits.len(),
    {
        edits.len() > 0 ==> {
            let d = self.edited(edits.drop_last());
            &&& self.edits_here(edits.drop_last())
            &&& d.edit_op(edits.last().0, edits.last().1) matches Some(o) ==> d.tree.ready(o)
                && o.stamp.lamport + spec_span(o.kind) - 1 <= LAMPORT_WIRE_CEILING
            &&& d.seen.len() + d.buffer.len() < 0x1_0000_0000_0000_0000
        }
    }

    pub open spec fn turned(self, s: TurnV) -> DocV {
        match s {
            TurnV::Arrives(op) => self.with_op(op),
            TurnV::Edits(edits) => self.begun().edited(edits).ended(),
            TurnV::Begins => self.atomic_begun(),
            TurnV::Commits => self.committed_atomic(),
        }
    }

    /// After some turns.
    pub open spec fn lived(self, turns: Seq<TurnV>) -> DocV
        decreases turns.len(),
    {
        if turns.len() == 0 {
            self
        } else {
            self.lived(turns.drop_last()).turned(turns.last())
        }
    }

    /// The ops a turn brings: one that arrives and was not applied before, or those of the
    /// replica's own edits.
    pub open spec fn turn_heard(self, s: TurnV) -> Seq<OpV> {
        match s {
            TurnV::Arrives(op) => if self.seen.contains(op.id) {
                Seq::empty()
            } else {
                seq![op]
            },
            TurnV::Edits(edits) => self.begun().edits_heard(edits),
            _ => Seq::empty(),
        }
    }

    /// The ops that some turns bring.
    pub open spec fn heard(self, turns: Seq<TurnV>) -> Seq<OpV>
        decreases turns.len(),
    {
        if turns.len() == 0 {
            Seq::empty()
        } else {
            self.heard(turns.drop_last()) + self.lived(turns.drop_last()).turn_heard(turns.last())
        }
    }

    /// Whether every edit among some turns is of what is there.
    pub open spec fn lives_well(self, turns: Seq<TurnV>) -> bool
        decreases turns.len(),
    {
        turns.len() > 0 ==> self.lives_well(turns.drop_last()) && (
        turns.last() matches TurnV::Edits(edits) ==> self.lived(
            turns.drop_last(),
        ).begun().edits_here(edits))
    }

    /// The groups that a turn's commit settles.
    pub open spec fn turn_made(self, s: TurnV) -> Set<GroupKey> {
        match (s, self.atomic) {
            (TurnV::Commits, Some(ops)) => groups_made(self.client, ops),
            _ => Set::empty(),
        }
    }

    /// The groups that some turns' commits settle.
    pub open spec fn made(self, turns: Seq<TurnV>) -> Set<GroupKey>
        decreases turns.len(),
    {
        if turns.len() == 0 {
            Set::empty()
        } else {
            self.made(turns.drop_last()).union(
                self.lived(turns.drop_last()).turn_made(turns.last()),
            )
        }
    }
}

// --- edits ---

/// Where a replica stands is told by its state, clocks, and what it applied, settled and
/// holds.
proof fn lemma_footing(
    c: ClientId,
    pool: Set<OpV>,
    own: Set<GroupKey>,
    d: DocV,
    e: DocV,
    p: Seq<OpV>,
    l: Seq<OpV>,
    todo: Set<OpV>,
)
    requires
        stands(c, pool, own, d, p, l, todo),
        e.tree == d.tree,
        e.lamport == d.lamport,
        e.zone_clocks == d.zone_clocks,
        e.seen == d.seen,
        e.buffer == d.buffer,
        e.resolved == d.resolved,
    ensures
        stands(c, pool, own, e, p, l, todo),
        quiet(d) ==> quiet(e),
{
    reveal(stands);
    reveal(quiet);
    assert(stands_at(c, e, l)) by {
        reveal(stands_at);
    }
    assert forall|op: OpV| #[trigger] p.contains(op) implies kept(e, l, todo, op) by {
        assert(kept(d, l, todo, op));
    }
}

/// A replica has every op that arrived.
proof fn lemma_heard_has(
    c: ClientId,
    pool: Set<OpV>,
    own: Set<GroupKey>,
    d: DocV,
    p: Seq<OpV>,
    l: Seq<OpV>,
    x: OpV,
)
    requires
        stands(c, pool, own, d, p, l, Set::empty()),
        p.contains(x),
    ensures
        d.has_op(x.id),
{
    reveal(stands);
    assert(d.seen == DocV::empty(c).ran(l).seen) by {
        reveal(stands_at);
    }
    assert(kept(d, l, Set::empty(), x));
    if l.contains(bare(x)) {
        crate::deliver::lemma_seen(c, l, x.id);
        assert(l[l.index_of(bare(x))].id == x.id);
    } else {
        let b = shown(d.resolved, x);
        assert(d.buffer[d.buffer.index_of(b)].id == x.id);
    }
}

/// A run's ops are finitely many.
proof fn lemma_seen_finite(c: ClientId, l: Seq<OpV>)
    ensures
        DocV::empty(c).ran(l).seen.finite(),
    decreases l.len(),
{
    if l.len() > 0 {
        lemma_seen_finite(c, l.drop_last());
    }
}

/// An edit applies its op as other replicas do.
pub(crate) proof fn lemma_edit_applies(d: DocV, target: ElementId, kind: OpKindV)
    ensures
        match d.edit_op(target, kind) {
            Some(o) => {
                let e = d.emitted(target, kind);
                let f = d.applied(o);
                &&& o.stamp.client == d.client
                &&& o.stamp.offset == 0
                &&& e.tree == f.tree
                &&& e.seen == f.seen
                &&& e.buffer == f.buffer
                &&& e.resolved == f.resolved
                &&& e.client == d.client
                &&& e.pending == d.pending.push(o)
                &&& o.stamp.lamport + spec_span(kind) - 1 <= LAMPORT_WIRE_CEILING ==> e.lamport
                    == f.lamport && e.zone_clocks == f.zone_clocks
                &&& admissible(o)
            },
            None => d.emitted(target, kind) == (DocV { mint_refused: true, ..d }),
        },
{
    reveal(DocV::emitted);
    reveal(DocV::mint);
    if let Some(o) = d.edit_op(target, kind) {
        assert(spec_span(kind) >= 1);
        let zone = zone_of_op(d.tree, d.schema, target, kind);
        let e = d.advanced(zone, (o.stamp.lamport + spec_span(kind) - 1) as u64);
        assert(e.seen == d.seen && e.buffer == d.buffer && e.client == d.client && e.seq == d.seq);
        assert(forall|id: OpId| #[trigger] e.has_op(id) == d.has_op(id));
        lemma_same_free(d, e, d.seq, (d.seen.len() + d.buffer.len()) as nat);
    }
}

proof fn lemma_same_free(d: DocV, e: DocV, from: u64, fuel: nat)
    requires
        e.seen == d.seen,
        e.buffer == d.buffer,
        e.client == d.client,
    ensures
        e.free_from(from, fuel) == d.free_from(from, fuel),
    decreases fuel,
{
    if fuel > 0 {
        lemma_same_free(d, e, crate::mint::next_of(from), (fuel - 1) as nat);
    }
}

/// A replica's own edit is as an op that arrives and can apply.
proof fn lemma_edit_stands(
    c: ClientId,
    all: Seq<OpV>,
    own: Set<GroupKey>,
    d: DocV,
    p: Seq<OpV>,
    l: Seq<OpV>,
    target: ElementId,
    kind: OpKindV,
) -> (r: (Seq<OpV>, Seq<OpV>))
    requires
        authored(all),
        stands(c, bares(all), own, d, p, l, Set::empty()),
        forall|x: OpV| #[trigger] p.contains(x) ==> all.contains(x),
        d.edit_op(target, kind) matches Some(o) ==> all.contains(o) && d.tree.ready(o)
            && o.stamp.lamport + spec_span(o.kind) - 1 <= LAMPORT_WIRE_CEILING,
        d.seen.len() + d.buffer.len() < 0x1_0000_0000_0000_0000,
    ensures
        stands(c, bares(all), own, d.emitted(target, kind), r.0, r.1, Set::empty()),
        forall|x: OpV| #[trigger]
            r.0.contains(x) <==> p.contains(x) || d.edit_op(target, kind) == Some(x),
        d.edit_op(target, kind) matches Some(o) ==> admissible(o),
{
    let pool = bares(all);
    lemma_edit_applies(d, target, kind);
    match d.edit_op(target, kind) {
        None => {
            lemma_footing(c, pool, own, d, d.emitted(target, kind), p, l, Set::empty());
            (p, l)
        },
        Some(o) => {
            assert(d.seen.finite()) by {
                lemma_seen_finite(c, l);
                reveal(stands);
                reveal(stands_at);
            }
            law_minted_ids_are_new(d, d.seq);
            assert forall|x: OpV| #[trigger] p.contains(x) implies x.id != o.id by {
                lemma_heard_has(c, pool, own, d, p, l, x);
            }
            lemma_pushed(p, o);
            assert forall|x: OpV| #[trigger] p.push(o).contains(x) implies all.contains(x) by {}
            lemma_grouped_within(p.push(o), all);
            assert(bare(o) == o);
            assert(pool.contains(o));
            let m = lemma_enter(c, pool, own, d, p, l, o);
            lemma_footing(
                c,
                pool,
                own,
                d.applied(o),
                d.emitted(target, kind),
                p.push(o),
                m,
                Set::empty(),
            );
            (p.push(o), m)
        },
    }
}

proof fn lemma_edits_stand(
    c: ClientId,
    all: Seq<OpV>,
    own: Set<GroupKey>,
    d: DocV,
    p: Seq<OpV>,
    l: Seq<OpV>,
    edits: Seq<(ElementId, OpKindV)>,
) -> (r: (Seq<OpV>, Seq<OpV>))
    requires
        authored(all),
        stands(c, bares(all), own, d, p, l, Set::empty()),
        forall|x: OpV| #[trigger] p.contains(x) ==> all.contains(x),
        forall|x: OpV| #[trigger] d.edits_heard(edits).contains(x) ==> all.contains(x),
        d.edits_here(edits),
    ensures
        stands(c, bares(all), own, d.edited(edits), r.0, r.1, Set::empty()),
        forall|x: OpV| #[trigger]
            r.0.contains(x) <==> p.contains(x) || d.edits_heard(edits).contains(x),
        forall|x: OpV| #[trigger] d.edits_heard(edits).contains(x) ==> admissible(x),
    decreases edits.len(),
{
    if edits.len() == 0 {
        (p, l)
    } else {
        let h = edits.drop_last();
        let (target, kind) = edits.last();
        let rest = d.edits_heard(h);
        let e = d.edited(h);
        if let Some(o) = e.edit_op(target, kind) {
            lemma_pushed(rest, o);
        }
        assert forall|x: OpV| #[trigger] rest.contains(x) implies all.contains(x) by {
            assert(d.edits_heard(edits).contains(x));
        }
        let (q, m) = lemma_edits_stand(c, all, own, d, p, l, h);
        if let Some(o) = e.edit_op(target, kind) {
            assert(d.edits_heard(edits).contains(o));
        }
        lemma_edit_stands(c, all, own, e, q, m, target, kind)
    }
}

// --- transactions ---

/// Groups that a replica settles itself: whoever waits under them waits on its own.
proof fn lemma_settle_own(
    c: ClientId,
    pool: Set<OpV>,
    own: Set<GroupKey>,
    d: DocV,
    p: Seq<OpV>,
    l: Seq<OpV>,
    made: Set<GroupKey>,
    e: DocV,
)
    requires
        stands(c, pool, own, d, p, l, Set::empty()),
        e == (DocV {
            resolved: d.resolved.union(made),
            buffer: untagged(d.buffer, d.resolved.union(made)),
            ..d
        }),
    ensures
        stands(c, pool, own.union(made), e, p, l, Set::empty()),
{
    let res = d.resolved;
    let all = res.union(made);
    let b = d.buffer;
    let n = e.buffer;
    assert(n.no_duplicates()) by {
        assert forall|i: int, j: int| 0 <= i < j < n.len() implies n[i] != n[j] by {
            assert(b.contains(b[i]) && b.contains(b[j]));
            if n[i] == n[j] {
                lemma_waits_once(c, pool, own, d, p, l, b[i], b[j]);
                reveal(stands);
                assert(b[i] == b[j]);
            }
        }
    }
    assert forall|x: OpV| #[trigger] n.contains(x) implies !l.contains(bare(x)) && waits_of(
        p,
        all,
        x,
    ) by {
        reveal(stands);
        let i: int = n.index_of(x);
        assert(b.contains(b[i]));
        let y = choose|op: OpV| #[trigger] p.contains(op) && b[i] == shown(res, op);
        assert(bare(x) == bare(b[i]));
        assert(x == shown(all, y));
    }
    reveal(stands);
    assert forall|op: OpV| #[trigger] p.contains(op) implies kept(e, l, Set::empty(), op) by {
        assert(kept(d, l, Set::empty(), op));
        if !l.contains(bare(op)) {
            let y = shown(res, op);
            let i: int = b.index_of(y);
            assert(n[i] == shown(all, op));
        }
    }
    assert forall|x: OpV| #[trigger] l.contains(x) implies ran_of(p, all, x) by {
        let y = choose|op: OpV| #[trigger] p.contains(op) && x == bare(op) && freed(res, op);
        assert(freed(all, y));
    }
    assert(stands_at(c, e, l)) by {
        reveal(stands_at);
    }
    assert forall|op: OpV| #[trigger] p.contains(op) && !freed(all, op) implies members_of(
        p,
        group_of(op)->Some_0,
    ).len() <= op.tx->Some_0.count by {
        assert(!freed(res, op));
    }
}

// --- turns ---

proof fn lemma_turn_stands(
    c: ClientId,
    all: Seq<OpV>,
    own: Set<GroupKey>,
    d: DocV,
    p: Seq<OpV>,
    l: Seq<OpV>,
    s: TurnV,
) -> (r: (Seq<OpV>, Seq<OpV>))
    requires
        authored(all),
        stands(c, bares(all), own, d, p, l, Set::empty()),
        quiet(d),
        forall|x: OpV| #[trigger] p.contains(x) ==> all.contains(x),
        forall|x: OpV| #[trigger] d.turn_heard(s).contains(x) ==> all.contains(x),
        s matches TurnV::Edits(edits) ==> d.begun().edits_here(edits),
    ensures
        stands(
            c,
            bares(all),
            own.union(d.turn_made(s)),
            d.turned(s),
            r.0,
            r.1,
            Set::empty(),
        ),
        quiet(d.turned(s)),
        forall|x: OpV| #[trigger]
            r.0.contains(x) <==> p.contains(x) || d.turn_heard(s).contains(x) && admissible(x),
{
    let pool = bares(all);
    let none = Set::<GroupKey>::empty();
    let no = Set::<OpV>::empty();
    match s {
        TurnV::Arrives(op) => {
            assert(own.union(none) =~= own);
            if d.seen.contains(op.id) {
                lemma_has(c, pool, own, d, p, l, op.id);
                assert(d.with_op(op) == d);
                (p, l)
            } else {
                assert(d.turn_heard(s)[0] == op);
                assert(d.turn_heard(s).contains(op));
                lemma_pushed(p, op);
                assert forall|x: OpV| #[trigger] p.push(op).contains(x)
                    implies all.contains(x) by {}
                lemma_grouped_within(p.push(op), all);
                assert(pool.contains(bare(op)));
                lemma_arrives(c, pool, own, d, p, l, op)
            }
        },
        TurnV::Edits(edits) => {
            assert(own.union(none) =~= own);
            lemma_footing(c, pool, own, d, d.begun(), p, l, no);
            let (q, m) = lemma_edits_stand(c, all, own, d.begun(), p, l, edits);
            let e = d.begun().edited(edits);
            let n = lemma_drain(c, pool, own, e, q, m);
            reveal(DocV::ended);
            lemma_footing(c, pool, own, e.drained(), e.ended(), q, n, no);
            (q, n)
        },
        TurnV::Begins => {
            assert(own.union(none) =~= own);
            lemma_footing(c, pool, own, d, d.atomic_begun(), p, l, no);
            (p, l)
        },
        TurnV::Commits => {
            reveal(DocV::committed_atomic);
            reveal(DocV::grouped);
            match d.atomic {
                None => {
                    assert(own.union(none) =~= own);
                    (p, l)
                },
                Some(ops) => {
                    let made = groups_made(d.client, ops);
                    let e = DocV { atomic: None, history: d.history.close(true), ..d };
                    lemma_footing(c, pool, own, d, e, p, l, no);
                    if made == none {
                        assert(own.union(made) =~= own);
                        (p, l)
                    } else {
                        let res = d.resolved.union(made);
                        let f = DocV { resolved: res, buffer: untagged(e.buffer, res), ..e };
                        lemma_settle_own(c, pool, own, e, p, l, made, f);
                        let m = lemma_drain(c, pool, own.union(made), f, p, l);
                        (p, m)
                    }
                },
            }
        },
    }
}

/// Where what it lives through leaves a replica.
pub(crate) proof fn lemma_lived(c: ClientId, all: Seq<OpV>, turns: Seq<TurnV>) -> (r: (
    Seq<OpV>,
    Seq<OpV>,
))
    requires
        authored(all),
        forall|x: OpV| #[trigger] DocV::empty(c).heard(turns).contains(x) ==> all.contains(x),
        DocV::empty(c).lives_well(turns),
    ensures
        stands(
            c,
            bares(all),
            DocV::empty(c).made(turns),
            DocV::empty(c).lived(turns),
            r.0,
            r.1,
            Set::empty(),
        ),
        quiet(DocV::empty(c).lived(turns)),
        forall|x: OpV| #[trigger]
            r.0.contains(x) <==> DocV::empty(c).heard(turns).contains(x) && admissible(x),
    decreases turns.len(),
{
    let z = DocV::empty(c);
    if turns.len() == 0 {
        lemma_start(c, bares(all), Set::empty());
        (Seq::empty(), Seq::empty())
    } else {
        let h = turns.drop_last();
        let s = turns.last();
        let new = z.lived(h).turn_heard(s);
        let old_ops = z.heard(h);
        assert forall|x: OpV| #[trigger] z.heard(turns).contains(x) <==> old_ops.contains(x)
            || new.contains(x) by {
            if old_ops.contains(x) {
                assert(z.heard(turns)[old_ops.index_of(x)] == x);
            }
            if new.contains(x) {
                assert(z.heard(turns)[old_ops.len() + new.index_of(x)] == x);
            }
        }
        assert forall|x: OpV| #[trigger] old_ops.contains(x) implies all.contains(x) by {
            assert(z.heard(turns).contains(x));
        }
        assert forall|x: OpV| #[trigger] new.contains(x) implies all.contains(x) by {
            assert(z.heard(turns).contains(x));
        }
        let (p, l) = lemma_lived(c, all, h);
        lemma_turn_stands(c, all, z.made(h), z.lived(h), p, l, s)
    }
}

/// A replica shows what it heard: one that makes edits of its own, among ops that arrive,
/// agrees with one that gets them all, in whatever order, unless it settled groups of its
/// own.
pub proof fn law_authors_and_receivers_agree(c: ClientId, turns: Seq<TurnV>, p: Seq<OpV>)
    requires
        authored(p),
        DocV::empty(c).lives_well(turns),
        DocV::empty(c).made(turns) == Set::<GroupKey>::empty(),
        forall|x: OpV| #[trigger] DocV::empty(c).heard(turns).contains(x) <==> p.contains(x),
    ensures
        agree(DocV::empty(c).lived(turns), with_ops(DocV::empty(c), p)),
{
    let (q, l) = lemma_lived(c, p, turns);
    let (r, m) = lemma_deliver(c, p, p);
    lemma_agree(c, p, DocV::empty(c).lived(turns), q, l, with_ops(DocV::empty(c), p), r, m);
}

// --- what a replica publishes ---

/// What an op writes under a stamp is stamped within what it reserves.
proof fn lemma_own_stamps(op: OpV, i: int)
    requires
        admissible(op),
        !(op.kind is XmlReveal),
        0 <= i < writes_of(op).len(),
    ensures
        stamp_of(writes_of(op)[i]) matches Some(s) ==> s.client == op.stamp.client
            && op.stamp.lamport <= s.lamport <= op.stamp.lamport + spec_span(op.kind) - 1,
{
    reveal(writes_of);
    match op.kind {
        OpKindV::XmlInsertChild { tag, .. } => {
            let b = born(child_of(op), child_container(tag));
            if 1 <= i <= b.len() {
                assert(writes_of(op)[i] == b[i - 1]);
            }
        },
        OpKindV::TextInsert { s, anchor } => {
            if i > 0 {
                assert(writes_of(op)[i] == run_puts(op.target, op.stamp, s, anchor)[i - 1]);
            }
        },
        OpKindV::TextDelete { ids } => {
            if i > 0 {
                assert(writes_of(op)[i] == run_drops(op.target, ids)[i - 1]);
            }
        },
        OpKindV::RangedCreate { start, end, payload, name } => {
            if let RangedInitV::Composite(kind) = payload {
                if let Some(c) = TreeV::payload_container(kind) {
                    let b = born(spec_payload_id(spec_ranged_id(op.stamp), kind), c);
                    if 1 <= i <= b.len() {
                        assert(writes_of(op)[i] == b[i - 1]);
                    }
                }
            }
        },
        _ => {},
    }
}

/// Ops whose reservations do not overlap write nothing under one stamp.
proof fn lemma_reserved_apart(a: OpV, b: OpV)
    requires
        admissible(a),
        admissible(b),
        !(a.kind is XmlReveal),
        !(b.kind is XmlReveal),
        a.stamp.client == b.stamp.client ==> a.stamp.lamport + spec_span(a.kind) - 1
            < b.stamp.lamport,
    ensures
        stamps_apart(a, b),
        stamps_apart(b, a),
        a.stamp != b.stamp,
{
    assert forall|i: int, j: int|
        0 <= i < writes_of(a).len() && 0 <= j < writes_of(b).len() && stamp_of(
            #[trigger] writes_of(a)[i],
        ) is Some && stamp_of(#[trigger] writes_of(b)[j]) is Some implies apart(
        writes_of(a)[i],
        writes_of(b)[j],
    ) && apart(writes_of(b)[j], writes_of(a)[i]) by {
        lemma_own_stamps(a, i);
        lemma_own_stamps(b, j);
    }
    assert(spec_span(a.kind) >= 1);
}

/// What a replica has heard of, its figures are past, so its next op is stamped past it.
proof fn lemma_minted_past(
    c: ClientId,
    pool: Set<OpV>,
    own: Set<GroupKey>,
    d: DocV,
    p: Seq<OpV>,
    l: Seq<OpV>,
    target: ElementId,
    kind: OpKindV,
    x: OpV,
)
    requires
        stands(c, pool, own, d, p, l, Set::empty()),
        p.contains(x),
        admissible(x),
        d.edit_op(target, kind) is Some,
    ensures
        x.stamp.client == d.client ==> x.stamp.lamport + spec_span(x.kind) - 1 < d.edit_op(
            target,
            kind,
        )->Some_0.stamp.lamport,
{
    law_mints_clear_the_record(d, target, kind);
    lemma_absorbed(p, x);
    assert(d.tree.high_water == figures(p)) by {
        reveal(stands);
    }
    let n = spec_reservation_end(x.stamp, spec_span(x.kind));
    assert(n == 0 || raised(figures(p), x.stamp, spec_span(x.kind)).dom().contains(x.stamp.client)
        && raised(figures(p), x.stamp, spec_span(x.kind))[x.stamp.client] >= n) by {
        reveal(TreeV::record);
    }
}

/// What a replica publishes is such as replicas author: whatever it has heard of, its next
/// op has an id and stamps of its own, so with it the ops are authored as long as the names
/// it derives are told apart from those derived before.
pub proof fn law_emitted_ops_are_authored(
    c: ClientId,
    turns: Seq<TurnV>,
    edits: Seq<(ElementId, OpKindV)>,
    target: ElementId,
    kind: OpKindV,
)
    requires
        DocV::empty(c).lives_well(turns),
        DocV::empty(c).lived(turns).begun().edits_here(edits.push((target, kind))),
        !(kind is XmlReveal),
        ({
            let z = DocV::empty(c);
            let d = z.lived(turns).begun();
            let ops = z.heard(turns) + d.edits_heard(edits);
            &&& authored(ops)
            &&& forall|x: OpV| #[trigger] ops.contains(x) ==> admissible(x)
            &&& d.edited(edits).edit_op(target, kind) matches Some(o) && named_well(
                bares(ops.push(o)),
            )
        }),
    ensures
        ({
            let z = DocV::empty(c);
            let d = z.lived(turns).begun();
            let ops = z.heard(turns) + d.edits_heard(edits);
            let o = d.edited(edits).edit_op(target, kind)->Some_0;
            &&& authored(ops.push(o))
            &&& admissible(o)
            &&& d.edited(edits).emitted(target, kind).pending == d.edited(edits).pending.push(o)
        }),
{
    let z = DocV::empty(c);
    let a = z.lived(turns);
    let d = a.begun();
    let own = z.made(turns);
    let old_ops = z.heard(turns);
    let new = d.edits_heard(edits);
    let ops = old_ops + new;
    let e = d.edited(edits);
    let o = e.edit_op(target, kind)->Some_0;
    let pool = bares(ops);
    let more = edits.push((target, kind));
    assert(more.drop_last() =~= edits);
    assert forall|x: OpV| #[trigger] ops.contains(x) <==> old_ops.contains(x) || new.contains(
        x,
    ) by {
        if old_ops.contains(x) {
            assert(ops[old_ops.index_of(x)] == x);
        }
        if new.contains(x) {
            assert(ops[old_ops.len() + new.index_of(x)] == x);
        }
    }
    let (q, m) = lemma_lived(c, ops, turns);
    lemma_footing(c, pool, own, a, d, q, m, Set::empty());
    let (p, l) = lemma_edits_stand(c, ops, own, d, q, m, edits);
    assert forall|x: OpV| #[trigger] p.contains(x) <==> ops.contains(x) by {}
    lemma_edit_applies(e, target, kind);
    assert(e.seen.finite()) by {
        lemma_seen_finite(c, l);
        reveal(stands);
        reveal(stands_at);
    }
    law_minted_ids_are_new(e, e.seq);
    assert forall|x: OpV| #[trigger] ops.contains(x) implies x.id != o.id by {
        assert(p.contains(x));
        lemma_heard_has(c, pool, own, e, p, l, x);
    }
    lemma_pushed(ops, o);
    let all = ops.push(o);
    assert(by_id(all));
    assert(grouped(all)) by {
        assert forall|x: OpV, y: OpV| #[trigger]
            all.contains(x) && #[trigger] all.contains(y) && group_of(x) is Some && group_of(x)
                == group_of(y) implies x.tx->Some_0.count == y.tx->Some_0.count
            && x.tx->Some_0.count >= 1 by {
            assert(ops.contains(x) && ops.contains(y));
        }
    }
    assert(stamped_well(bares(all))) by {
        reveal(stamped_well);
        assert(bare(o) == o);
        assert forall|x: OpV| #[trigger] bares(all).contains(x) implies x == o || pool.contains(
            x,
        ) by {
            let y = choose|y: OpV| #[trigger] all.contains(y) && bare(y) == x;
            if y != o {
                assert(ops.contains(y));
            }
        }
        assert forall|x: OpV| #[trigger] pool.contains(x) implies x.id != o.id && stamps_apart(
            x,
            o,
        ) && stamps_apart(o, x) && x.stamp != o.stamp by {
            let y = choose|y: OpV| #[trigger] ops.contains(y) && bare(y) == x;
            assert(p.contains(y));
            lemma_minted_past(c, pool, own, e, p, l, target, kind, y);
            lemma_reserved_apart(x, o);
        }
    }
}

} // verus!
