//! Ops that replicas author, and runs of them.

use crate::clientid::ClientId;
use crate::commute::{apart, effect, WriteV};
use crate::converge::{lemma_wet_kind, raised, wet};
use crate::doc::DocV;
use crate::element::ElementV;
use crate::elementid::ElementId;
use crate::gist::{child_of, move_writes};
use crate::identity::{root_element, spec_born_at, spec_span};
use crate::op::{OpKindV, OpV};
use crate::stamp::Stamp;
use crate::xml::{node_attrs_id, node_children_id};
use vstd::prelude::*;

verus! {

// --- what is authored ---

/// What an op writes, whatever its target hangs off.
#[verifier::opaque]
pub open spec fn writes_of(op: OpV) -> Seq<WriteV> {
    match op.kind {
        OpKindV::XmlMove { node, .. } => seq![
            WriteV::Raise { stamp: op.stamp, span: spec_span(op.kind) },
        ] + move_writes(op, ElementV::XmlElement(node)),
        _ => effect(op, None),
    }
}

/// What an op leaves a name of: a container, an item, an annotation, what hangs off what,
/// a movable node and the sequence it is born in, or a move.
pub enum TraceV {
    LwwMap(ElementId),
    List(ElementId),
    Text(ElementId),
    XmlElement(ElementId),
    XmlFragment(ElementId),
    Item(ElementId, Stamp),
    Codepoint(ElementId, Stamp),
    Note(ElementId),
    Link(ElementId, ElementId),
    Born(ElementId, ElementId),
    Moved(Stamp),
}

pub open spec fn trace_of(w: WriteV) -> Option<TraceV> {
    match w {
        WriteV::NewMap { id } => Some(TraceV::LwwMap(id)),
        WriteV::NewList { id } => Some(TraceV::List(id)),
        WriteV::NewText { id } => Some(TraceV::Text(id)),
        WriteV::NewElement { id, .. } => Some(TraceV::XmlElement(id)),
        WriteV::NewFragment { id } => Some(TraceV::XmlFragment(id)),
        WriteV::ListPut { list, id, .. } => Some(TraceV::Item(list, id)),
        WriteV::TextPut { text, id, .. } => Some(TraceV::Codepoint(text, id)),
        WriteV::Note { id, .. } => Some(TraceV::Note(id)),
        WriteV::Link { child, parent } => Some(TraceV::Link(child, parent)),
        WriteV::Home { child, parent } => Some(TraceV::Born(child, parent)),
        _ => None,
    }
}

/// Whether an op leaves a trace.
pub open spec fn leaves(op: OpV, tr: TraceV) -> bool {
    wrote(op, tr) || (op.kind is XmlMove && tr == TraceV::Moved(op.stamp))
}

/// Whether a write of an op leaves a trace.
pub open spec fn wrote(op: OpV, tr: TraceV) -> bool {
    exists|j: int| 0 <= j < writes_of(op).len() && trace_of(#[trigger] writes_of(op)[j]) == Some(tr)
}

/// Whether two writes are of one item put in and taken out.
pub open spec fn crossed(v: WriteV, w: WriteV) -> bool {
    match (v, w) {
        (WriteV::ListPut { .. }, WriteV::ListDrop { .. }) => true,
        (WriteV::ListDrop { .. }, WriteV::ListPut { .. }) => true,
        (WriteV::TextPut { .. }, WriteV::TextDrop { .. }) => true,
        (WriteV::TextDrop { .. }, WriteV::TextPut { .. }) => true,
        (WriteV::Hold { .. }, WriteV::ListDrop { .. }) => true,
        (WriteV::ListDrop { .. }, WriteV::Hold { .. }) => true,
        _ => false,
    }
}

/// Whether what two ops write never contradicts: their stamps are their own, and a name
/// derived for one thing is derived for no other. One may delete what the other put in.
pub open spec fn well_apart(a: OpV, b: OpV) -> bool {
    forall|i: int, j: int|
        0 <= i < writes_of(a).len() && 0 <= j < writes_of(b).len() ==> apart(
            #[trigger] writes_of(a)[i],
            #[trigger] writes_of(b)[j],
        ) || crossed(writes_of(a)[i], writes_of(b)[j])
}

/// What an op edits.
pub enum EditsV {
    LwwMap,
    List,
    Text,
    Children,
    Anything,
}

pub open spec fn edits(kind: OpKindV) -> EditsV {
    match kind {
        OpKindV::ListInsert { .. } => EditsV::List,
        OpKindV::ListDelete { .. } => EditsV::List,
        OpKindV::TextInsert { .. } => EditsV::Text,
        OpKindV::TextDelete { .. } => EditsV::Text,
        OpKindV::XmlInsertChild { .. } => EditsV::Children,
        OpKindV::XmlMove { .. } => EditsV::Children,
        OpKindV::RangedCreate { .. } => EditsV::Anything,
        OpKindV::RangedSetPayload { .. } => EditsV::Anything,
        OpKindV::RangedDelete { .. } => EditsV::Anything,
        OpKindV::AclGrant { .. } => EditsV::Anything,
        OpKindV::AclRevoke { .. } => EditsV::Anything,
        _ => EditsV::LwwMap,
    }
}

/// Whether a trace does not make of an op's target something the op does not edit.
pub open spec fn fits_target(op: OpV, tr: TraceV) -> bool {
    match tr {
        TraceV::LwwMap(id) => id == op.target ==> edits(op.kind) is LwwMap || edits(
            op.kind,
        ) is Anything,
        TraceV::List(id) => id == op.target ==> edits(op.kind) is List || edits(
            op.kind,
        ) is Children || edits(op.kind) is Anything,
        TraceV::Text(id) => id == op.target ==> edits(op.kind) is Text || edits(
            op.kind,
        ) is Anything,
        TraceV::XmlElement(id) => id == op.target ==> edits(op.kind) is Anything,
        TraceV::XmlFragment(id) => id == op.target ==> edits(op.kind) is Anything,
        TraceV::Note(id) => id == op.target ==> edits(op.kind) is Anything,
        TraceV::Link(id, parent) => id == op.target && edits(op.kind) is Children ==> id
            == node_children_id(parent),
        _ => true,
    }
}

/// Whether ops hang things off what ranks lower, so that nothing ever hangs off itself.
pub open spec fn ranked(pool: Set<OpV>, rank: spec_fn(ElementId) -> nat) -> bool {
    forall|b: OpV, x: ElementId, p: ElementId|
        #![trigger leaves(b, TraceV::Link(x, p)), pool.contains(b)]
        #![trigger leaves(b, TraceV::Born(x, p)), pool.contains(b)]
        pool.contains(b) && (leaves(b, TraceV::Link(x, p)) || leaves(b, TraceV::Born(x, p)))
            ==> rank(p) < rank(x)
}

/// Whether a child is not its own sequence's, nor is what it owns.
pub open spec fn born_apart(op: OpV) -> bool {
    op.kind is XmlInsertChild ==> op.target != child_of(op) && op.target != node_attrs_id(
        child_of(op),
    ) && op.target != node_children_id(child_of(op))
}

/// Whether a move does not take its node to a place that a birth of it would.
pub open spec fn moved_apart(op: OpV) -> bool {
    op.kind matches OpKindV::XmlMove { node, .. } ==> !spec_born_at(op.target, op.stamp, node)
}

/// Whether what one op hangs off something does not hang off a sequence that another
/// makes, and is an element's or a fragment's if the other places nodes in it.
pub open spec fn linked_well(a: OpV, b: OpV, x: ElementId, p: ElementId) -> bool {
    &&& !leaves(b, TraceV::List(p))
    &&& edits(b.kind) is Children && x == b.target ==> leaves(a, TraceV::XmlElement(p)) || leaves(
        a,
        TraceV::XmlFragment(p),
    )
}

/// Whether a movable node is nothing else: not the root, an annotation, a map, a sequence
/// or what hangs off something by name.
pub open spec fn only_born(op: OpV, x: ElementId) -> bool {
    &&& !leaves(op, TraceV::Note(x))
    &&& !leaves(op, TraceV::List(x))
    &&& !leaves(op, TraceV::LwwMap(x))
    &&& !leaves(op, TraceV::XmlFragment(x))
    &&& forall|p: ElementId| !#[trigger] leaves(op, TraceV::Link(x, p))
}

/// The stamp that a write is told by, if it is.
pub open spec fn stamp_of(w: WriteV) -> Option<Stamp> {
    match w {
        WriteV::Slot { stamp, .. } => Some(stamp),
        WriteV::NoteSet { stamp, .. } => Some(stamp),
        WriteV::ListPut { id, .. } => Some(id),
        WriteV::TextPut { id, .. } => Some(id),
        WriteV::Hold { at, .. } => Some(at.stamp),
        _ => None,
    }
}

/// Whether what two ops write under names never contradicts. One may delete what the other
/// put in.
pub open spec fn names_apart(a: OpV, b: OpV) -> bool {
    forall|i: int, j: int|
        0 <= i < writes_of(a).len() && 0 <= j < writes_of(b).len() && !(stamp_of(
            #[trigger] writes_of(a)[i],
        ) is Some && stamp_of(#[trigger] writes_of(b)[j]) is Some) ==> apart(
            writes_of(a)[i],
            writes_of(b)[j],
        ) || crossed(writes_of(a)[i], writes_of(b)[j])
}

/// Whether what two ops write under stamps never contradicts.
pub open spec fn stamps_apart(a: OpV, b: OpV) -> bool {
    forall|i: int, j: int|
        0 <= i < writes_of(a).len() && 0 <= j < writes_of(b).len() && stamp_of(
            #[trigger] writes_of(a)[i],
        ) is Some && stamp_of(#[trigger] writes_of(b)[j]) is Some ==> apart(
            writes_of(a)[i],
            writes_of(b)[j],
        )
}

/// Whether the names that ops derive, and the things they name, are told apart: no name
/// that is derived for one thing is derived for another, each op edits what its target is,
/// what hangs off something is neither the root nor an annotation, nor ever hangs off
/// itself, and only placed nodes hang off sequences.
#[verifier::opaque]
pub open spec fn named_well(pool: Set<OpV>) -> bool {
    &&& forall|a: OpV| #[trigger]
        pool.contains(a) ==> (edits(a.kind) is List || edits(a.kind) is Text || edits(
            a.kind,
        ) is Children ==> a.target != root_element()) && born_apart(a) && moved_apart(a)
    &&& forall|a: OpV, b: OpV| #[trigger]
        pool.contains(a) && #[trigger] pool.contains(b) && a != b ==> names_apart(a, b)
    &&& forall|a: OpV, b: OpV, tr: TraceV|
        pool.contains(a) && pool.contains(b) && #[trigger] leaves(b, tr) ==> #[trigger] fits_target(
            a,
            tr,
        )
    &&& forall|a: OpV, b: OpV, x: ElementId, p: ElementId|
        #![trigger leaves(a, TraceV::Link(x, p)), pool.contains(b)]
        pool.contains(a) && pool.contains(b) && leaves(a, TraceV::Link(x, p)) ==> x
            != root_element() && !leaves(b, TraceV::Note(x)) && linked_well(a, b, x, p)
    &&& forall|a: OpV, b: OpV, x: ElementId, l: ElementId|
        #![trigger leaves(a, TraceV::Born(x, l)), pool.contains(b)]
        pool.contains(a) && pool.contains(b) && leaves(a, TraceV::Born(x, l)) ==> x
            != root_element() && only_born(b, x) && (a != b ==> forall|m: ElementId|
            !#[trigger] leaves(b, TraceV::Born(x, m)))
    &&& forall|a: OpV, b: OpV, x: ElementId|
        #![trigger leaves(a, TraceV::XmlElement(x)), leaves(b, TraceV::Text(x))]
        pool.contains(a) && pool.contains(b) && leaves(a, TraceV::XmlElement(x)) ==> !leaves(
            b,
            TraceV::Text(x),
        )
    &&& exists|rank: spec_fn(ElementId) -> nat| #[trigger] ranked(pool, rank)
}

/// Whether no two ops have one id, make one move, or write one thing under one stamp, and
/// none reveals a node or waits for a group.
#[verifier::opaque]
pub open spec fn stamped_well(pool: Set<OpV>) -> bool {
    &&& forall|a: OpV| #[trigger] pool.contains(a) ==> !(a.kind is XmlReveal) && a.tx is None
    &&& forall|a: OpV, b: OpV| #[trigger]
        pool.contains(a) && #[trigger] pool.contains(b) && a != b ==> a.id != b.id && stamps_apart(
            a,
            b,
        ) && !(a.kind is XmlMove && b.kind is XmlMove && a.stamp == b.stamp)
}

/// Whether ops are such as replicas author: they reveal no node, no two have one id or
/// contradict in what they write under stamps, and their names are told apart.
pub open spec fn authored_alone(pool: Set<OpV>) -> bool {
    named_well(pool) && stamped_well(pool)
}

pub(crate) proof fn lemma_pool_op(pool: Set<OpV>, a: OpV)
    requires
        authored_alone(pool),
        pool.contains(a),
    ensures
        !(a.kind is XmlReveal),
        a.tx is None,
        edits(a.kind) is List || edits(a.kind) is Text || edits(a.kind) is Children ==> a.target
            != root_element(),
        born_apart(a),
        moved_apart(a),
{
    reveal(named_well);
    reveal(stamped_well);
}

pub(crate) proof fn lemma_pool_pair(pool: Set<OpV>, a: OpV, b: OpV)
    requires
        authored_alone(pool),
        pool.contains(a),
        pool.contains(b),
        a != b,
    ensures
        a.id != b.id,
        well_apart(a, b),
        !(a.kind is XmlMove && b.kind is XmlMove && a.stamp == b.stamp),
{
    reveal(named_well);
    reveal(stamped_well);
}

pub(crate) proof fn lemma_pool_fit(pool: Set<OpV>, a: OpV, b: OpV, tr: TraceV)
    requires
        authored_alone(pool),
        pool.contains(a),
        pool.contains(b),
        leaves(b, tr),
    ensures
        fits_target(a, tr),
{
    reveal(named_well);
    reveal(stamped_well);
}

pub(crate) proof fn lemma_pool_link(pool: Set<OpV>, a: OpV, b: OpV, x: ElementId, p: ElementId)
    requires
        authored_alone(pool),
        pool.contains(a),
        pool.contains(b),
        leaves(a, TraceV::Link(x, p)),
    ensures
        x != root_element(),
        !leaves(b, TraceV::Note(x)),
        linked_well(a, b, x, p),
{
    reveal(named_well);
    reveal(stamped_well);
}

pub(crate) proof fn lemma_pool_born(pool: Set<OpV>, a: OpV, b: OpV, x: ElementId, l: ElementId)
    requires
        authored_alone(pool),
        pool.contains(a),
        pool.contains(b),
        leaves(a, TraceV::Born(x, l)),
    ensures
        x != root_element(),
        only_born(b, x),
        a != b ==> forall|m: ElementId| !#[trigger] leaves(b, TraceV::Born(x, m)),
{
    reveal(named_well);
    reveal(stamped_well);
}

pub(crate) proof fn lemma_pool_tagged(pool: Set<OpV>, a: OpV, b: OpV, x: ElementId)
    requires
        authored_alone(pool),
        pool.contains(a),
        pool.contains(b),
        leaves(a, TraceV::XmlElement(x)),
    ensures
        !leaves(b, TraceV::Text(x)),
{
    reveal(named_well);
    reveal(stamped_well);
    if leaves(b, TraceV::Text(x)) {
    }
}

pub(crate) proof fn lemma_pool_rank(pool: Set<OpV>) -> (rank: spec_fn(ElementId) -> nat)
    requires
        authored_alone(pool),
    ensures
        ranked(pool, rank),
{
    reveal(named_well);
    reveal(stamped_well);
    choose|rank: spec_fn(ElementId) -> nat| #[trigger] ranked(pool, rank)
}

// --- ops in turn ---

impl DocV {
    /// After ops apply, in turn.
    pub open spec fn ran(self, ops: Seq<OpV>) -> DocV
        decreases ops.len(),
    {
        if ops.len() == 0 {
            self
        } else {
            self.ran(ops.drop_last()).applied(ops.last())
        }
    }
}

/// Whether two replicas have seen the same ops, have the same clocks and hold states of the
/// same gist.
pub open spec fn same_standing(d: DocV, e: DocV) -> bool {
    &&& d.tree.gist() == e.tree.gist()
    &&& d.lamport == e.lamport
    &&& d.zone_clocks == e.zone_clocks
    &&& d.seen == e.seen
}

/// Whether ops of a pool can apply to a new replica in turn, each once.
#[verifier::opaque]
pub open spec fn runs_in_turn(c: ClientId, pool: Set<OpV>, q: Seq<OpV>) -> bool {
    &&& q.no_duplicates()
    &&& forall|i: int| 0 <= i < q.len() ==> pool.contains(#[trigger] q[i])
    &&& forall|i: int|
        0 <= i < q.len() ==> DocV::empty(c).ran(q.take(i)).tree.ready(#[trigger] q[i])
}

pub(crate) proof fn lemma_runs_prefix(c: ClientId, pool: Set<OpV>, q: Seq<OpV>)
    requires
        runs_in_turn(c, pool, q),
        q.len() > 0,
    ensures
        runs_in_turn(c, pool, q.drop_last()),
        pool.contains(q.last()),
        !q.drop_last().contains(q.last()),
        DocV::empty(c).ran(q.drop_last()).tree.ready(q.last()),
{
    reveal(runs_in_turn);
    let h = q.drop_last();
    assert forall|i: int| 0 <= i < h.len() implies pool.contains(#[trigger] h[i])
        && DocV::empty(c).ran(h.take(i)).tree.ready(h[i]) by {
        assert(h[i] == q[i]);
        assert(h.take(i) =~= q.take(i));
    }
    assert(q[q.len() - 1] == q.last());
    assert(q.take(q.len() - 1) =~= h);
    if h.contains(q.last()) {
        let i = h.index_of(q.last());
        assert(q[i] == q[q.len() - 1]);
    }
}

pub(crate) proof fn lemma_runs_push(c: ClientId, pool: Set<OpV>, q: Seq<OpV>, a: OpV)
    requires
        runs_in_turn(c, pool, q),
        pool.contains(a),
        !q.contains(a),
        DocV::empty(c).ran(q).tree.ready(a),
    ensures
        runs_in_turn(c, pool, q.push(a)),
        DocV::empty(c).ran(q.push(a)) == DocV::empty(c).ran(q).applied(a),
{
    reveal(runs_in_turn);
    let n = q.push(a);
    assert forall|i: int| 0 <= i < n.len() implies pool.contains(#[trigger] n[i])
        && DocV::empty(c).ran(n.take(i)).tree.ready(n[i]) by {
        if i < q.len() {
            assert(n[i] == q[i]);
            assert(n.take(i) =~= q.take(i));
        } else {
            assert(n.take(i) =~= q);
        }
    }
    assert(n.no_duplicates()) by {
        assert forall|i: int, j: int| 0 <= i < j < n.len() implies n[i] != n[j] by {
            if j == q.len() {
                assert(q.contains(q[i]));
            }
        }
    }
    assert(n.drop_last() =~= q);
}

pub(crate) proof fn lemma_runs_at(c: ClientId, pool: Set<OpV>, q: Seq<OpV>, i: int)
    requires
        runs_in_turn(c, pool, q),
        0 <= i < q.len(),
    ensures
        pool.contains(q[i]),
        DocV::empty(c).ran(q.take(i)).tree.ready(q[i]),
{
    reveal(runs_in_turn);
}

pub(crate) proof fn lemma_runs_once(c: ClientId, pool: Set<OpV>, q: Seq<OpV>)
    requires
        runs_in_turn(c, pool, q),
    ensures
        q.no_duplicates(),
{
    reveal(runs_in_turn);
}

pub(crate) proof fn lemma_runs_none(c: ClientId, pool: Set<OpV>)
    ensures
        runs_in_turn(c, pool, Seq::empty()),
{
    reveal(runs_in_turn);
}

/// The figures after an op applies.
pub(crate) proof fn lemma_applied_figures(d: DocV, a: OpV)
    ensures
        d.applied(a).tree.high_water == raised(d.tree.high_water, a.stamp, spec_span(a.kind)),
{
    lemma_wet_kind(d.tree, d.tree.high_water, a.target, a.kind, a.stamp, a.id.client);
    assert(wet(d.tree, d.tree.high_water) == d.tree);
}

/// Whether a node was born, going by some traces.
pub open spec fn born_in(k: Set<TraceV>, x: ElementId) -> bool {
    exists|l: ElementId| #[trigger] k.contains(TraceV::Born(x, l))
}

/// Whether some op of a run leaves a trace.
pub open spec fn traced(q: Seq<OpV>, tr: TraceV) -> bool {
    exists|i: int| 0 <= i < q.len() && leaves(#[trigger] q[i], tr)
}

/// A trace of a run is left by one of its ops.
pub(crate) proof fn lemma_tracer(c: ClientId, pool: Set<OpV>, q: Seq<OpV>, tr: TraceV) -> (b: OpV)
    requires
        runs_in_turn(c, pool, q),
        traced(q, tr),
    ensures
        q.contains(b),
        pool.contains(b),
        leaves(b, tr),
{
    reveal(runs_in_turn);
    let i = choose|i: int| 0 <= i < q.len() && leaves(#[trigger] q[i], tr);
    assert(q.contains(q[i]));
    q[i]
}

/// What an op is still to write does not contradict what has left a trace.
pub(crate) proof fn lemma_other(
    c: ClientId,
    pool: Set<OpV>,
    q: Seq<OpV>,
    a: OpV,
    i: int,
    tr: TraceV,
) -> (w: WriteV)
    requires
        authored_alone(pool),
        runs_in_turn(c, pool, q),
        pool.contains(a),
        !q.contains(a),
        0 <= i < writes_of(a).len(),
        traced(q, tr),
        !(tr is Moved),
    ensures
        trace_of(w) == Some(tr),
        apart(writes_of(a)[i], w) || crossed(writes_of(a)[i], w),
{
    let b = lemma_tracer(c, pool, q, tr);
    assert(wrote(b, tr));
    let j = choose|j: int|
        0 <= j < writes_of(b).len() && trace_of(#[trigger] writes_of(b)[j]) == Some(tr);
    lemma_pool_pair(pool, a, b);
    assert(apart(writes_of(a)[i], writes_of(b)[j]) || crossed(writes_of(a)[i], writes_of(b)[j]));
    writes_of(b)[j]
}

} // verus!
