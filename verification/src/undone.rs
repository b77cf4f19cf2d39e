//! One edit undone: what an undo right after an edit does is what the edit's inverse does.

use crate::converge::lemma_nothing_waits;
use crate::doc::DocV;
use crate::elementid::ElementId;
use crate::op::OpKindV;
use crate::replay::{follow_kind, installer, installs, step_target};
use crate::stamp::Stamp;
use crate::tree::TreeV;
use crate::treemove::link_of;
use crate::undo::{latest_of, HistoryV, IntentionV, Landing, StepV};
use crate::identity::root_element;
use vstd::prelude::*;

verus! {

/// Whether a replica records what an origin edits, with no edit open and nothing waiting.
pub open spec fn records(d: DocV, origin: Seq<u8>) -> bool {
    &&& d.history.origin == Some(origin)
    &&& d.history.open.len() == 0
    &&& d.history.depth == 0
    &&& d.history.landing == Landing::Undo
    &&& d.atomic is None
    &&& d.buffer.len() == 0
}

/// Whether nothing that an op names was replaced by an earlier undo.
pub open spec fn names_stand(h: HistoryV, target: ElementId, kind: OpKindV) -> bool {
    h.current_element(target) == target && follow_kind(h, target, kind) == kind
}

impl DocV {
    /// After an edit of its own.
    pub open spec fn after_edit(self, target: ElementId, kind: OpKindV) -> DocV {
        self.begun().emitted(target, kind).ended()
    }

    /// After an undo of what an origin did last, if there is anything to undo.
    pub open spec fn after_undo(self, origin: Seq<u8>) -> Option<DocV> {
        match self.next_intention(origin, Landing::Undo) {
            None => None,
            Some(it) => Some(self.with_taken(origin, Landing::Undo).replayed(it, Landing::Redo)),
        }
    }
}

/// What installs no container puts none back.
proof fn lemma_no_chain(t: TreeV, plan: Seq<StepV>, id: ElementId, fuel: nat)
    requires
        forall|x: ElementId| (#[trigger] installer(plan, x)) is None,
    ensures
        t.chain(plan, id, fuel) == Seq::<StepV>::empty(),
    decreases fuel,
{
    if fuel > 0 {
        assert(installer(plan, id) is None);
        if id != root_element() {
            if let Some(p) = link_of(t.parents, id) {
                lemma_no_chain(t, plan, p, (fuel - 1) as nat);
                assert(Seq::<StepV>::empty() + Seq::<StepV>::empty() =~= Seq::<StepV>::empty());
            }
        }
    }
}

/// What is emitted depends on the state, the clocks and the author.
proof fn lemma_emitted_tree(d: DocV, e: DocV, target: ElementId, kind: OpKindV)
    requires
        d.tree == e.tree,
        d.client == e.client,
        d.lamport == e.lamport,
        d.zone_clocks == e.zone_clocks,
        d.schema == e.schema,
        d.mint_refused == e.mint_refused,
    ensures
        d.mint(target, kind) == e.mint(target, kind),
        d.emitted(target, kind).tree == e.emitted(target, kind).tree,
{
    reveal(DocV::mint);
    reveal(DocV::emitted);
}

/// An undo of one edit does the one action that is its inverse, in a replica like the one
/// just edited.
pub(crate) proof fn lemma_one_step_undone(
    d: DocV,
    origin: Seq<u8>,
    target: ElementId,
    kind: OpKindV,
    step: StepV,
) -> (f: DocV)
    requires
        records(d, origin),
        d.begun().mint(target, kind) is Some,
        d.tree.inverse(target, kind, d.begun().mint(target, kind)->Some_0) == seq![step],
        d.history.current_element(step_target(step)) == step_target(step),
        d.begun().emitted(target, kind).tree.materialised(step_target(step)),
        d.begun().emitted(target, kind).tree.plan(seq![step]) == seq![step],
        installs(step) is None,
    ensures
        d.after_edit(target, kind).tree == d.begun().emitted(target, kind).tree,
        alike(f, d.begun().emitted(target, kind)),
        f.history.ids == d.history.ids,
        f.history.elements == d.history.elements,
        f.buffer.len() == 0,
        f.undid(step).buffer.len() == 0 ==> (d.after_edit(target, kind).after_undo(
            origin,
        ) matches Some(u) && u.tree == f.undid(step).tree),
{
    let b = d.begun();
    let e = b.emitted(target, kind);
    let to = step_target(step);
    let s = b.mint(target, kind)->Some_0;
    reveal(DocV::emitted);
    assert(b.history == d.history && b.tree == d.tree && b.buffer == d.buffer);
    assert(!b.mint_refused);
    assert(e.history.open =~= seq![step]);
    assert(e.buffer == d.buffer && e.atomic is None);
    lemma_nothing_waits(e);
    reveal(DocV::ended);
    let a = e.ended();
    assert(a.tree == e.tree);
    let it = IntentionV { origin, steps: seq![step], atomic: false };
    assert(a.history.undo == d.history.undo.push(it));
    let stack = a.history.undo;
    assert(stack.last() == it);
    assert(latest_of(stack, origin) == Some(stack.len() - 1));
    assert(!a.in_intention());
    assert(a.next_intention(origin, Landing::Undo) == Some(it));
    let t = a.with_taken(origin, Landing::Undo);
    let f = t.replay_begun(it, Landing::Redo);
    reveal(DocV::replay_begun);
    assert(f.tree == e.tree && f.buffer == d.buffer && f.atomic is None);
    let plan = f.tree.plan(it.steps);
    assert(plan == seq![step]);
    assert(plan.drop_last() =~= Seq::empty());
    assert forall|x: ElementId| (#[trigger] installer(plan, x)) is None by {
        assert(plan.last() == step);
        assert(installer(plan.drop_last(), x) is None);
    }
    assert(f.history.elements == d.history.elements && f.history.ids == d.history.ids);
    assert(f.history.current_element(to) == to);
    lemma_no_chain(f.tree, plan, to, f.tree.parents.dom().len() + 1);
    let g = f.replayed_upto(plan, 1);
    reveal(DocV::replayed_step);
    assert(f.replayed_upto(plan, 0) == f);
    assert(f.reinstalled(Seq::<StepV>::empty()) == f);
    assert(g == f.undid(step));
    if g.buffer.len() == 0 {
        lemma_nothing_waits(g);
        reveal(DocV::replay_ran);
        assert(plan.len() == 1);
        assert(t.replay_ran(it, Landing::Redo) == g);
        reveal(DocV::closed_replay);
        reveal(DocV::replayed);
    }
    f
}

/// Whether two replicas have the same state, clocks and author.
pub open spec fn alike(d: DocV, e: DocV) -> bool {
    &&& d.tree == e.tree
    &&& d.client == e.client
    &&& d.lamport == e.lamport
    &&& d.zone_clocks == e.zone_clocks
    &&& d.schema == e.schema
    &&& d.mint_refused == e.mint_refused
}

/// The state an undo of one edit leads to is that of the op that is its inverse.
pub(crate) proof fn lemma_one_undone(
    d: DocV,
    origin: Seq<u8>,
    target: ElementId,
    kind: OpKindV,
    to: ElementId,
    back: OpKindV,
)
    requires
        records(d, origin),
        d.begun().mint(target, kind) is Some,
        d.tree.inverse(target, kind, d.begun().mint(target, kind)->Some_0) == seq![
            StepV::Op { target: to, kind: back },
        ],
        names_stand(d.history, to, back),
        d.begun().emitted(target, kind).tree.materialised(to),
        d.begun().emitted(target, kind).tree.plan(seq![StepV::Op { target: to, kind: back }])
            == seq![StepV::Op { target: to, kind: back }],
        installs(StepV::Op { target: to, kind: back }) is None,
    ensures
        d.after_edit(target, kind).tree == d.begun().emitted(target, kind).tree,
        d.after_edit(target, kind).after_undo(origin) matches Some(u) && u.tree
            == d.begun().emitted(target, kind).emitted(to, back).tree,
{
    let e = d.begun().emitted(target, kind);
    let step = StepV::Op { target: to, kind: back };
    let f = lemma_one_step_undone(d, origin, target, kind, step);
    reveal(DocV::undid);
    reveal(DocV::undid_op);
    lemma_same_follow(f.history, d.history, to, back);
    assert(f.undid(step) == f.emitted(to, back));
    lemma_emitted_tree(f, e, to, back);
    reveal(DocV::emitted);
}

/// The same where the inverse puts back something deleted, as an op of its own.
pub(crate) proof fn lemma_one_revived(
    d: DocV,
    origin: Seq<u8>,
    target: ElementId,
    kind: OpKindV,
    step: StepV,
    to: ElementId,
    back: OpKindV,
)
    requires
        records(d, origin),
        d.begun().mint(target, kind) is Some,
        d.tree.inverse(target, kind, d.begun().mint(target, kind)->Some_0) == seq![step],
        revives(step) == Some((to, back)),
        d.history.current_element(to) == to,
        d.begun().emitted(target, kind).tree.materialised(to),
        d.begun().emitted(target, kind).tree.plan(seq![step]) == seq![step],
    ensures
        d.after_edit(target, kind).tree == d.begun().emitted(target, kind).tree,
        d.after_edit(target, kind).after_undo(origin) matches Some(u) && u.tree
            == d.begun().emitted(target, kind).emitted(to, back).tree,
{
    let e = d.begun().emitted(target, kind);
    let f = lemma_one_step_undone(d, origin, target, kind, step);
    reveal(DocV::undid);
    reveal(DocV::undid_delete);
    reveal(DocV::undid_cut);
    reveal(DocV::undid_revoke);
    lemma_emitted_tree(f, e, to, back);
    let g = f.emitted(to, back);
    assert(g.buffer == f.buffer) by {
        reveal(DocV::emitted);
    }
    if let StepV::ReviveRun { was, .. } = step {
        if let Some(now) = f.mint(to, back) {
            lemma_replaced_tree(g, to, was, now, was.len());
        }
    }
    assert(f.undid(step).tree == g.tree && f.undid(step).buffer == g.buffer);
}

/// The op that an action which puts something back is.
pub open spec fn revives(step: StepV) -> Option<(ElementId, OpKindV)> {
    match step {
        StepV::ReviveItem { list, anchor, value, .. } => Some(
            (list, OpKindV::ListInsert { value, anchor }),
        ),
        StepV::ReviveRun { text, anchor, s, .. } => Some(
            (text, OpKindV::TextInsert { s, anchor }),
        ),
        StepV::Regrant { target, subject, grant, effect, path, grantor, .. } => Some(
            (target, OpKindV::AclGrant { subject, grant, effect, path, grantor }),
        ),
        _ => None,
    }
}

proof fn lemma_replaced_tree(d: DocV, text: ElementId, was: Seq<Stamp>, now: Stamp, n: nat)
    ensures
        d.with_run_replaced(text, was, now, n).tree == d.tree,
        d.with_run_replaced(text, was, now, n).buffer == d.buffer,
    decreases n,
{
    if n > 0 {
        lemma_replaced_tree(d, text, was, now, (n - 1) as nat);
    }
}

/// What stands for what depends on what was replaced.
proof fn lemma_same_follow(g: HistoryV, h: HistoryV, target: ElementId, kind: OpKindV)
    requires
        g.ids == h.ids,
        g.elements == h.elements,
    ensures
        follow_kind(g, target, kind) == follow_kind(h, target, kind),
{
    if let OpKindV::TextDelete { ids } = kind {
        assert(ids.map_values(|id: Stamp| g.current(target, id)) =~= ids.map_values(
            |id: Stamp| h.current(target, id),
        ));
    }
}

} // verus!
