//! Undo and redo: an intention's inverses, emitted as ordinary edits.
//!
//! The edits a replay makes record their own inverses, so what undoes an undo is always
//! read off the live state.

use crate::anchor::Anchor;
use crate::doc::{DocV, Document};
use crate::elementid::{derived_id, ElementId, ElementKind};
use crate::identity::{
    acl_id, payload_id, ranged_id, root_element, root_id, spec_acl_id, spec_payload_id,
    spec_ranged_id, spec_xml_child_id, xml_child_id,
};
use crate::mint::grouped_ops;
use crate::op::{ops_view, Op, OpKind, OpKindV, OpV};
use crate::ranged::{RangeAnchor, RangedInit, RangedInitV};
use crate::bytes::{copy_opt, opt_bytes};
use crate::scalar::{Scalar, ScalarV};
use crate::sequence::list_place;
use crate::stamp::Stamp;
use crate::tree::{Tree, TreeV};
use crate::treemove::link_of;
use crate::undo::{
    latest_of, lemma_snap_parts, slots_by_value, snaps_by_value, steps_view, HistoryV, Intention,
    IntentionV, Landing, Snap, SnapV, Step, StepV,
};
use crate::xml::{
    element_node_id, fragment_node_id, node_attrs_id, node_children_id, XmlElement, XmlFragment,
};
use vstd::prelude::*;
use vstd::slice::slice_to_vec;

verus! {

/// An anchor with what it hangs on replaced by whatever stands for it now.
pub open spec fn follow_anchor(h: HistoryV, seq: ElementId, a: Anchor) -> Anchor {
    Anchor {
        parent: match a.parent {
            Some(id) => Some(h.current(seq, id)),
            None => None,
        },
        side: a.side,
    }
}

/// An op with every id it names replaced by whatever stands for it now.
pub open spec fn follow_kind(h: HistoryV, seq: ElementId, kind: OpKindV) -> OpKindV {
    match kind {
        OpKindV::ListDelete { id } => OpKindV::ListDelete { id: h.current(seq, id) },
        OpKindV::ListInsert { value, anchor } => OpKindV::ListInsert {
            value,
            anchor: follow_anchor(h, seq, anchor),
        },
        OpKindV::TextInsert { s, anchor } => OpKindV::TextInsert {
            s,
            anchor: follow_anchor(h, seq, anchor),
        },
        OpKindV::XmlInsertChild { tag, anchor } => OpKindV::XmlInsertChild {
            tag,
            anchor: follow_anchor(h, seq, anchor),
        },
        OpKindV::TextDelete { ids } => OpKindV::TextDelete {
            ids: ids.map_values(|id: Stamp| h.current(seq, id)),
        },
        OpKindV::XmlMove { node, anchor } => OpKindV::XmlMove {
            node: h.current_element(node),
            anchor: follow_anchor(h, seq, anchor),
        },
        OpKindV::RangedSetPayload { id, payload } => OpKindV::RangedSetPayload {
            id: h.current_element(id),
            payload,
        },
        OpKindV::RangedDelete { id } => OpKindV::RangedDelete { id: h.current_element(id) },
        OpKindV::AclRevoke { id } => OpKindV::AclRevoke { id: h.current_element(id) },
        other => other,
    }
}

impl DocV {
    pub open spec fn with_history(self, history: HistoryV) -> DocV {
        DocV { history, ..self }
    }

    // --- rebuilding ---

    /// After a captured string is put back into an empty text.
    #[verifier::opaque]
    pub open spec fn fill_text(self, text: ElementId, s: Seq<char>) -> DocV {
        if s.len() == 0 || !self.tree.texts.dom().contains(text) {
            self
        } else {
            self.emitted(
                text,
                OpKindV::TextInsert { s, anchor: list_place(self.tree.texts[text], 0, None) },
            )
        }
    }

    /// After the first `n` captured values are put back into a list.
    pub open spec fn fill_list(self, list: ElementId, values: Seq<ScalarV>, n: nat) -> DocV
        decreases n,
    {
        if n == 0 {
            self
        } else {
            let d = self.fill_list(list, values, (n - 1) as nat);
            if d.tree.lists.dom().contains(list) {
                d.emitted(
                    list,
                    OpKindV::ListInsert {
                        value: values[n - 1],
                        anchor: list_place(d.tree.lists[list], (n - 1) as nat, None),
                    },
                )
            } else {
                d
            }
        }
    }

    /// After a counter is driven `left` further, up or down, in steps an op can carry.
    pub open spec fn fill_counter(self, map: ElementId, key: Seq<u8>, left: nat, up: bool) -> DocV
        decreases left,
    {
        let amount = if left <= u32::MAX {
            left as u32
        } else {
            u32::MAX
        };
        let d = self.emitted(
            map,
            if up {
                OpKindV::CounterInc { key, amount }
            } else {
                OpKindV::CounterDec { key, amount }
            },
        );
        if left <= u32::MAX {
            d
        } else {
            d.fill_counter(map, key, (left - u32::MAX) as nat, up)
        }
    }

    /// After one captured slot is put back.
    pub open spec fn fill_slot(self, map: ElementId, key: Seq<u8>, snap: SnapV) -> DocV
        decreases snap, 2nat,
    {
        match snap {
            SnapV::Scalar(value) => self.emitted(map, OpKindV::MapSet { key, value }),
            SnapV::Register(value) => self.emitted(map, OpKindV::RegisterSet { key, value }),
            SnapV::Counter(total) => self.fill_counter(
                map,
                key,
                if total < 0 {
                    (0 - total) as nat
                } else {
                    total as nat
                },
                total >= 0,
            ),
            SnapV::LwwMap(slots) => self.emitted(map, OpKindV::MapCreate { key }).fill_slots(
                derived_id(map, key, ElementKind::LwwMap),
                slots,
                slots.len(),
            ),
            SnapV::List(values) => self.emitted(map, OpKindV::ListCreate { key }).fill_list(
                derived_id(map, key, ElementKind::List),
                values,
                values.len(),
            ),
            SnapV::Text(s) => self.emitted(map, OpKindV::TextCreate { key }).fill_text(
                derived_id(map, key, ElementKind::Text),
                s,
            ),
            SnapV::XmlElement { tag, attrs, children } => {
                let child = element_node_id(map, key, tag);
                self.emitted(map, OpKindV::XmlElementCreate { key, tag }).fill_slots(
                    node_attrs_id(child),
                    attrs,
                    attrs.len(),
                ).fill_children(node_children_id(child), children, children.len())
            },
            SnapV::XmlFragment { children } => self.emitted(
                map,
                OpKindV::XmlFragmentCreate { key },
            ).fill_children(
                node_children_id(fragment_node_id(map, key)),
                children,
                children.len(),
            ),
        }
    }

    /// After the first `n` captured slots are put back.
    pub open spec fn fill_slots(
        self,
        map: ElementId,
        slots: Seq<(Seq<u8>, SnapV)>,
        n: nat,
    ) -> DocV
        decreases slots, n,
    {
        if n == 0 || n > slots.len() {
            self
        } else {
            self.fill_slots(map, slots, (n - 1) as nat).fill_slot(
                map,
                slots[n - 1].0,
                slots[n - 1].1,
            )
        }
    }

    /// After the first `n` captured children are put back.
    pub open spec fn fill_children(self, list: ElementId, children: Seq<SnapV>, n: nat) -> DocV
        decreases children, n,
    {
        if n == 0 || n > children.len() {
            self
        } else {
            let d = self.fill_children(list, children, (n - 1) as nat);
            if d.tree.lists.dom().contains(list) {
                d.revived_node(
                    list,
                    list_place(d.tree.lists[list], (n - 1) as nat, None),
                    children[n - 1],
                )
            } else {
                d
            }
        }
    }

    /// The op that inserts a captured node.
    pub open spec fn node_op(anchor: Anchor, node: SnapV) -> OpKindV {
        OpKindV::XmlInsertChild {
            tag: match node {
                SnapV::XmlElement { tag, .. } => Some(tag),
                _ => None,
            },
            anchor,
        }
    }

    /// The stamp a captured node would come back under.
    #[verifier::opaque]
    pub open spec fn revival(self, list: ElementId, anchor: Anchor, node: SnapV) -> Option<Stamp> {
        match node {
            SnapV::Text(_) => self.mint(list, Self::node_op(anchor, node)),
            SnapV::XmlElement { .. } => self.mint(list, Self::node_op(anchor, node)),
            _ => None,
        }
    }

    /// After a captured node is built again in a sequence. Only the two movable kinds ever
    /// stand in one.
    pub open spec fn revived_node(self, list: ElementId, anchor: Anchor, node: SnapV) -> DocV
        decreases node, 1nat,
    {
        let d = self.emitted(list, Self::node_op(anchor, node));
        match (node, self.revival(list, anchor, node)) {
            (SnapV::Text(s), Some(stamp)) => d.fill_text(
                spec_xml_child_id(list, stamp, ElementKind::Text),
                s,
            ),
            (SnapV::XmlElement { tag, attrs, children }, Some(stamp)) => {
                let child = spec_xml_child_id(list, stamp, ElementKind::XmlElement);
                d.fill_slots(node_attrs_id(child), attrs, attrs.len()).fill_children(
                    node_children_id(child),
                    children,
                    children.len(),
                )
            },
            (SnapV::Text(_), None) => d,
            (SnapV::XmlElement { .. }, None) => d,
            _ => self,
        }
    }

    /// What a captured payload is created as.
    pub open spec fn payload_init(payload: SnapV) -> Option<RangedInitV> {
        match payload {
            SnapV::Scalar(v) => Some(RangedInitV::Scalar(v)),
            SnapV::LwwMap(_) => Some(RangedInitV::Composite(ElementKind::LwwMap)),
            SnapV::List(_) => Some(RangedInitV::Composite(ElementKind::List)),
            SnapV::Text(_) => Some(RangedInitV::Composite(ElementKind::Text)),
            _ => None,
        }
    }

    /// After a revived annotation's payload is put back.
    #[verifier::opaque]
    pub open spec fn fill_payload(self, ranged: ElementId, payload: SnapV) -> DocV {
        match payload {
            SnapV::LwwMap(slots) => self.fill_slots(
                spec_payload_id(ranged, ElementKind::LwwMap),
                slots,
                slots.len(),
            ),
            SnapV::List(values) => self.fill_list(
                spec_payload_id(ranged, ElementKind::List),
                values,
                values.len(),
            ),
            SnapV::Text(s) => self.fill_text(spec_payload_id(ranged, ElementKind::Text), s),
            _ => self,
        }
    }

    // --- one action ---

    /// The element a node inserted at `stamp` is.
    #[verifier::opaque]
    pub open spec fn node_at(self, list: ElementId, stamp: Stamp) -> Option<ElementId> {
        let x = spec_xml_child_id(list, stamp, ElementKind::XmlElement);
        let t = spec_xml_child_id(list, stamp, ElementKind::Text);
        if self.tree.node_handle(x) is Some {
            Some(x)
        } else if self.tree.node_handle(t) is Some {
            Some(t)
        } else {
            None
        }
    }

    /// With the ids of a run replaced by those of the run that revived it, up to `n`.
    pub open spec fn with_run_replaced(
        self,
        text: ElementId,
        was: Seq<Stamp>,
        now: Stamp,
        n: nat,
    ) -> DocV
        decreases n,
    {
        if n == 0 {
            self
        } else {
            let d = self.with_run_replaced(text, was, now, (n - 1) as nat);
            d.with_history(
                d.history.substitute(text, was[n - 1], now.spec_run_member((n - 1) as u64)),
            )
        }
    }

    /// With a node, its attrs and its children replaced by another's.
    pub open spec fn with_node_replaced(self, was: ElementId, now: ElementId) -> DocV {
        self.with_history(
            self.history.substitute_element(was, now).substitute_element(
                node_attrs_id(was),
                node_attrs_id(now),
            ).substitute_element(node_children_id(was), node_children_id(now)),
        )
    }

    /// With an annotation and its possible payloads replaced by another's.
    pub open spec fn with_ranged_replaced(self, was: ElementId, now: ElementId) -> DocV {
        self.with_history(
            self.history.substitute_element(was, now).substitute_element(
                spec_payload_id(was, ElementKind::LwwMap),
                spec_payload_id(now, ElementKind::LwwMap),
            ).substitute_element(
                spec_payload_id(was, ElementKind::List),
                spec_payload_id(now, ElementKind::List),
            ).substitute_element(
                spec_payload_id(was, ElementKind::Text),
                spec_payload_id(now, ElementKind::Text),
            ),
        )
    }

    /// After an ordinary op is emitted, pointed at whatever stands for what it names.
    #[verifier::opaque]
    pub open spec fn undid_op(self, target: ElementId, kind: OpKindV) -> DocV {
        let at = self.history.current_element(target);
        self.emitted(at, follow_kind(self.history, at, kind))
    }

    /// After a revoked grant is made again.
    #[verifier::opaque]
    pub open spec fn undid_revoke(self, target: ElementId, kind: OpKindV, was: ElementId) -> DocV {
        let d = self.emitted(target, kind);
        match self.mint(target, kind) {
            Some(stamp) => d.with_history(d.history.substitute_element(was, spec_acl_id(stamp))),
            None => d,
        }
    }

    /// After a deleted item is inserted again.
    #[verifier::opaque]
    pub open spec fn undid_delete(self, list: ElementId, kind: OpKindV, was: Stamp) -> DocV {
        let d = self.emitted(list, kind);
        match self.mint(list, kind) {
            Some(now) => d.with_history(d.history.substitute(list, was, now)),
            None => d,
        }
    }

    /// After deleted codepoints are inserted again.
    #[verifier::opaque]
    pub open spec fn undid_cut(self, text: ElementId, kind: OpKindV, was: Seq<Stamp>) -> DocV {
        let d = self.emitted(text, kind);
        match self.mint(text, kind) {
            Some(now) => d.with_run_replaced(text, was, now, was.len()),
            None => d,
        }
    }

    /// After a deleted node is built again.
    #[verifier::opaque]
    pub open spec fn undid_node(
        self,
        list: ElementId,
        anchor: Anchor,
        node: SnapV,
        was: Stamp,
        was_node: ElementId,
    ) -> DocV {
        let d = self.revived_node(list, anchor, node);
        match self.revival(list, anchor, node) {
            Some(now) => {
                let e = d.with_history(d.history.substitute(list, was, now));
                match e.node_at(list, now) {
                    Some(x) => e.with_node_replaced(was_node, x),
                    None => e,
                }
            },
            None => d,
        }
    }

    /// After a deleted annotation is made again.
    #[verifier::opaque]
    pub open spec fn undid_ranged(
        self,
        start: RangeAnchor,
        end: RangeAnchor,
        name: Option<Seq<u8>>,
        payload: SnapV,
        was: ElementId,
    ) -> DocV {
        match Self::payload_init(payload) {
            None => self,
            Some(init) => {
                let kind = OpKindV::RangedCreate { start, end, payload: init, name };
                let d = self.emitted(root_element(), kind);
                match self.mint(root_element(), kind) {
                    None => d,
                    Some(stamp) => {
                        let now = spec_ranged_id(stamp);
                        d.fill_payload(now, payload).with_ranged_replaced(was, now)
                    },
                }
            },
        }
    }

    /// After one undo action is emitted, with what it revives recorded as standing for
    /// what it revives it from.
    #[verifier::opaque]
    pub open spec fn undid(self, step: StepV) -> DocV {
        match step {
            StepV::Op { target, kind } => self.undid_op(target, kind),
            StepV::Regrant { target, subject, grant, effect, path, grantor, was } => {
                self.undid_revoke(
                    target,
                    OpKindV::AclGrant { subject, grant, effect, path, grantor },
                    was,
                )
            },
            StepV::ReviveItem { list, anchor, value, was } => self.undid_delete(
                list,
                OpKindV::ListInsert { value, anchor },
                was,
            ),
            StepV::ReviveRun { text, anchor, s, was } => self.undid_cut(
                text,
                OpKindV::TextInsert { s, anchor },
                was,
            ),
            StepV::ReviveNode { list, anchor, node, was, was_node } => self.undid_node(
                list,
                anchor,
                node,
                was,
                was_node,
            ),
            StepV::Ranged { start, end, name, payload, was } => self.undid_ranged(
                start,
                end,
                name,
                payload,
                was,
            ),
        }
    }
}

// --- the plan ---

/// The element an action addresses.
pub open spec fn step_target(step: StepV) -> ElementId {
    match step {
        StepV::Op { target, .. } => target,
        StepV::ReviveItem { list, .. } => list,
        StepV::ReviveNode { list, .. } => list,
        StepV::ReviveRun { text, .. } => text,
        StepV::Regrant { target, .. } => target,
        StepV::Ranged { .. } => root_element(),
    }
}

/// The container an action puts in a map slot.
pub open spec fn installs(step: StepV) -> Option<ElementId> {
    match step {
        StepV::Op { target, kind } => match kind {
            OpKindV::MapCreate { key } => Some(derived_id(target, key, ElementKind::LwwMap)),
            OpKindV::ListCreate { key } => Some(derived_id(target, key, ElementKind::List)),
            OpKindV::TextCreate { key } => Some(derived_id(target, key, ElementKind::Text)),
            OpKindV::XmlElementCreate { key, tag } => Some(element_node_id(target, key, tag)),
            OpKindV::XmlFragmentCreate { key } => Some(fragment_node_id(target, key)),
            _ => None,
        },
        _ => None,
    }
}

/// The last action of a plan that installs a container.
pub open spec fn installer(plan: Seq<StepV>, id: ElementId) -> Option<StepV>
    decreases plan.len(),
{
    if plan.len() == 0 {
        None
    } else if installs(plan.last()) == Some(id) {
        Some(plan.last())
    } else {
        installer(plan.drop_last(), id)
    }
}

impl TreeV {
    /// The container an action puts out of reach for good: a deleted sequence node.
    pub open spec fn removes(self, step: StepV) -> Option<ElementId> {
        match step {
            StepV::Op { target, kind: OpKindV::ListDelete { id } } => if self.lists.dom().contains(
                target,
            ) && self.lists[target].items.dom().contains(id)
                && self.lists[target].items[id].value.is_container() {
                self.lists[target].items[id].value.opt_id()
            } else {
                None
            },
            _ => None,
        }
    }

    /// The containers some actions put out of reach.
    pub open spec fn removed_by(self, steps: Seq<StepV>) -> Seq<ElementId>
        decreases steps.len(),
    {
        if steps.len() == 0 {
            Seq::empty()
        } else {
            let rest = self.removed_by(steps.drop_last());
            match self.removes(steps.last()) {
                Some(id) => rest.push(id),
                None => rest,
            }
        }
    }

    /// Whether `id` is one of `roots` or hangs under one, within `fuel` links.
    pub open spec fn under_any(self, id: ElementId, roots: Seq<ElementId>, fuel: nat) -> bool
        decreases fuel,
    {
        if fuel == 0 {
            false
        } else if roots.contains(id) {
            true
        } else if id == root_element() {
            false
        } else {
            match link_of(self.parents, id) {
                Some(p) => self.under_any(p, roots, (fuel - 1) as nat),
                None => false,
            }
        }
    }

    /// The actions that address nothing another action removes.
    pub open spec fn kept_steps(self, steps: Seq<StepV>, removed: Seq<ElementId>) -> Seq<StepV>
        decreases steps.len(),
    {
        if steps.len() == 0 {
            Seq::empty()
        } else {
            let rest = self.kept_steps(steps.drop_last(), removed);
            if self.under_any(step_target(steps.last()), removed, self.parents.dom().len() + 1) {
                rest
            } else {
                rest.push(steps.last())
            }
        }
    }

    /// An intention's actions in the order they are undone: the last edit first, without
    /// those inside a node another action removes whole.
    #[verifier::opaque]
    pub open spec fn plan(self, steps: Seq<StepV>) -> Seq<StepV> {
        let back = steps.reverse();
        self.kept_steps(back, self.removed_by(back))
    }

    /// The actions of a plan that would install a container on the way from `id` to the
    /// root, innermost first.
    pub open spec fn chain(self, plan: Seq<StepV>, id: ElementId, fuel: nat) -> Seq<StepV>
        decreases fuel,
    {
        if fuel == 0 {
            Seq::empty()
        } else {
            let here = match installer(plan, id) {
                Some(s) => seq![s],
                None => Seq::empty(),
            };
            if id == root_element() {
                here
            } else {
                match link_of(self.parents, id) {
                    Some(p) => here + self.chain(plan, p, (fuel - 1) as nat),
                    None => here,
                }
            }
        }
    }
}

impl DocV {
    /// After containers are installed again, outermost first, for as long as each has
    /// somewhere to go.
    pub open spec fn reinstalled(self, chain: Seq<StepV>) -> DocV
        decreases chain.len(),
    {
        if chain.len() == 0 {
            self
        } else {
            match chain.last() {
                StepV::Op { target, kind } => if self.tree.materialised(target) {
                    self.emitted(target, kind).reinstalled(chain.drop_last())
                } else {
                    self
                },
                _ => self,
            }
        }
    }

    /// After one action of a plan: a target that cannot be reached is put back first if
    /// the plan holds what does so, and the action is emitted if it has somewhere to go.
    #[verifier::opaque]
    pub open spec fn replayed_step(self, plan: Seq<StepV>, step: StepV) -> DocV {
        let target = self.history.current_element(step_target(step));
        let d = if self.tree.resolvable(target) {
            self
        } else {
            self.reinstalled(self.tree.chain(plan, target, self.tree.parents.dom().len() + 1))
        };
        if d.tree.materialised(target) {
            d.undid(step)
        } else {
            d
        }
    }

    pub open spec fn replayed_upto(self, plan: Seq<StepV>, n: nat) -> DocV
        decreases n,
    {
        if n == 0 {
            self
        } else {
            self.replayed_upto(plan, (n - 1) as nat).replayed_step(plan, plan[n - 1])
        }
    }

    /// At the start of a replay.
    #[verifier::opaque]
    pub open spec fn replay_begun(self, it: IntentionV, landing: Landing) -> DocV {
        DocV {
            mint_refused: false,
            history: HistoryV {
                origin: Some(it.origin),
                landing,
                replaying: true,
                ..self.history
            },
            atomic: if it.atomic && self.atomic is None {
                Some(Seq::empty())
            } else {
                self.atomic
            },
            pending: Seq::empty(),
            ..self
        }
    }

    /// With the replay's actions emitted and what waited on them applied.
    #[verifier::opaque]
    pub open spec fn replay_ran(self, it: IntentionV, landing: Landing) -> DocV {
        let d = self.replay_begun(it, landing);
        let plan = d.tree.plan(it.steps);
        d.replayed_upto(plan, plan.len()).drained()
    }

    /// The ops of the open transaction.
    pub open spec fn open_group(self) -> Seq<OpV> {
        match self.atomic {
            Some(a) => a,
            None => Seq::empty(),
        }
    }

    /// With a replay's ops gathered, grouped if the intention was an atomic one.
    #[verifier::opaque]
    pub open spec fn closed_replay(self, atomic: bool) -> DocV {
        if atomic {
            (DocV {
                pending: Seq::empty(),
                atomic: Some(self.open_group() + self.pending),
                ..self
            }).committed_atomic()
        } else {
            DocV { pending: Seq::empty(), history: self.history.close(false), ..self }
        }
    }

    /// The ops a replay gathered.
    #[verifier::opaque]
    pub open spec fn gathered(self, atomic: bool) -> Seq<OpV> {
        if atomic {
            grouped_ops(self.open_group() + self.pending)
        } else {
            self.pending
        }
    }

    /// The ops a replay gives back.
    #[verifier::opaque]
    pub open spec fn replay_ops(self, it: IntentionV, landing: Landing) -> Seq<OpV> {
        self.replay_ran(it, landing).gathered(it.atomic)
    }

    /// After a replay.
    #[verifier::opaque]
    pub open spec fn replayed(self, it: IntentionV, landing: Landing) -> DocV {
        let d = self.replay_ran(it, landing).closed_replay(it.atomic);
        d.with_history(
            (HistoryV {
                origin: self.history.origin,
                landing: self.history.landing,
                replaying: self.history.replaying,
                ..d.history
            }).pruned(),
        )
    }

    /// The intention an undo, or a redo, of an origin would replay.
    pub open spec fn next_intention(self, origin: Seq<u8>, from: Landing) -> Option<IntentionV> {
        if self.in_intention() {
            None
        } else {
            match latest_of(self.history.stack(from), origin) {
                Some(i) => Some(self.history.stack(from)[i]),
                None => None,
            }
        }
    }

    /// With that intention taken off its stack.
    pub open spec fn with_taken(self, origin: Seq<u8>, from: Landing) -> DocV {
        self.with_history(self.history.taken(origin, from))
    }
}

// --- rebuilding ---

impl Document {
    fn fill_text(&mut self, text: ElementId, s: &String)
        requires
            old(self).wf(),
        ensures
            final(self).wf(),
            final(self)@ == old(self)@.fill_text(text, s@),
    {
        reveal(DocV::fill_text);
        if s.as_str().unicode_len() == 0 {
            return;
        }
        let anchor = match self.tree.texts.get(text) {
            Some(t) => t.place(0),
            None => {
                return;
            },
        };
        self.emit(text, OpKind::TextInsert { s: s.clone(), anchor });
    }

    fn fill_list(&mut self, list: ElementId, values: &Vec<Scalar>)
        requires
            old(self).wf(),
        ensures
            final(self).wf(),
            final(self)@ == old(self)@.fill_list(
                list,
                values@.map_values(|v: Scalar| v@),
                values@.len(),
            ),
    {
        let ghost vs = values@.map_values(|v: Scalar| v@);
        let mut i: usize = 0;
        while i < values.len()
            invariant
                self.wf(),
                vs == values@.map_values(|v: Scalar| v@),
                i <= values@.len(),
                self@ == old(self)@.fill_list(list, vs, i as nat),
            decreases values@.len() - i,
        {
            let place = match self.tree.lists.get(list) {
                Some(l) => Some(l.place(i)),
                None => None,
            };
            if let Some(anchor) = place {
                self.emit(list, OpKind::ListInsert { value: values[i].clone(), anchor });
            }
            i += 1;
        }
    }

    fn fill_counter(&mut self, map: ElementId, key: &Vec<u8>, total: i64)
        requires
            old(self).wf(),
        ensures
            final(self).wf(),
            final(self)@ == old(self)@.fill_slot(map, key@, SnapV::Counter(total)),
    {
        let up = total >= 0;
        let mut left: u64 = if total >= 0 {
            total as u64
        } else if total == i64::MIN {
            0x8000_0000_0000_0000
        } else {
            (0 - total) as u64
        };
        let ghost all = left as nat;
        loop
            invariant_except_break
                old(self)@.fill_counter(map, key@, all, up) == self@.fill_counter(
                    map,
                    key@,
                    left as nat,
                    up,
                ),
            invariant
                self.wf(),
            ensures
                self.wf(),
                self@ == old(self)@.fill_counter(map, key@, all, up),
            decreases left,
        {
            let amount: u32 = if left <= u32::MAX as u64 {
                left as u32
            } else {
                u32::MAX
            };
            let k = slice_to_vec(key.as_slice());
            let kind = if up {
                OpKind::CounterInc { key: k, amount }
            } else {
                OpKind::CounterDec { key: k, amount }
            };
            self.emit(map, kind);
            if left <= u32::MAX as u64 {
                break;
            }
            left = left - u32::MAX as u64;
        }
    }

    #[verifier::rlimit(40)]
    #[verifier::spinoff_prover]
    fn fill_slot(&mut self, map: ElementId, key: &Vec<u8>, snap: &Snap)
        requires
            old(self).wf(),
        ensures
            final(self).wf(),
            final(self)@ == old(self)@.fill_slot(map, key@, snap@),
        decreases *snap, 2nat,
    {
        proof {
            lemma_snap_parts(*snap);
        }
        let k = slice_to_vec(key.as_slice());
        match snap {
            Snap::Scalar(value) => self.emit(map, OpKind::MapSet { key: k, value: value.clone() }),
            Snap::Register(value) => self.emit(
                map,
                OpKind::RegisterSet { key: k, value: value.clone() },
            ),
            Snap::Counter(total) => self.fill_counter(map, key, *total),
            Snap::LwwMap(slots) => {
                let child = ElementId::derive(map, key.as_slice(), ElementKind::LwwMap);
                self.emit(map, OpKind::MapCreate { key: k });
                self.fill_slots(child, slots);
            },
            Snap::List(values) => {
                let child = ElementId::derive(map, key.as_slice(), ElementKind::List);
                self.emit(map, OpKind::ListCreate { key: k });
                self.fill_list(child, values);
            },
            Snap::Text(s) => {
                let child = ElementId::derive(map, key.as_slice(), ElementKind::Text);
                self.emit(map, OpKind::TextCreate { key: k });
                self.fill_text(child, s);
            },
            Snap::XmlElement { tag, attrs, children } => {
                let child = XmlElement::node_id(map, key.as_slice(), tag.as_slice());
                self.emit(
                    map,
                    OpKind::XmlElementCreate { key: k, tag: slice_to_vec(tag.as_slice()) },
                );
                self.fill_slots(XmlElement::attrs_id(child), attrs);
                self.fill_children(XmlElement::children_id(child), children);
            },
            Snap::XmlFragment { children } => {
                let child = XmlFragment::node_id(map, key.as_slice());
                self.emit(map, OpKind::XmlFragmentCreate { key: k });
                self.fill_children(XmlFragment::children_id(child), children);
            },
        }
    }

    fn fill_slots(&mut self, map: ElementId, slots: &Vec<(Vec<u8>, Snap)>)
        requires
            old(self).wf(),
        ensures
            final(self).wf(),
            final(self)@ == old(self)@.fill_slots(map, slots_by_value(slots@), slots@.len()),
        decreases *slots, 1nat,
    {
        let ghost s = slots_by_value(slots@);
        let mut i: usize = 0;
        while i < slots.len()
            invariant
                self.wf(),
                s == slots_by_value(slots@),
                i <= slots@.len(),
                self@ == old(self)@.fill_slots(map, s, i as nat),
            decreases slots@.len() - i,
        {
            proof {
                assert(decreases_to!(*slots => slots[i as int]));
                assert(decreases_to!(*slots => slots[i as int].1));
                assert(s[i as int] == (slots@[i as int].0@, slots@[i as int].1@));
            }
            self.fill_slot(map, &slots[i].0, &slots[i].1);
            i += 1;
        }
    }

    fn fill_children(&mut self, list: ElementId, children: &Vec<Snap>)
        requires
            old(self).wf(),
        ensures
            final(self).wf(),
            final(self)@ == old(self)@.fill_children(
                list,
                snaps_by_value(children@),
                children@.len(),
            ),
        decreases *children, 1nat,
    {
        let ghost s = snaps_by_value(children@);
        let mut i: usize = 0;
        while i < children.len()
            invariant
                self.wf(),
                s == snaps_by_value(children@),
                i <= children@.len(),
                self@ == old(self)@.fill_children(list, s, i as nat),
            decreases children@.len() - i,
        {
            proof {
                assert(decreases_to!(*children => children[i as int]));
                assert(s[i as int] == children@[i as int]@);
            }
            let place = match self.tree.lists.get(list) {
                Some(l) => Some(l.place(i)),
                None => None,
            };
            if let Some(anchor) = place {
                let _ = self.revive_node(list, anchor, &children[i]);
            }
            i += 1;
        }
    }

    /// Rebuild a captured node in a sequence, returning the id it came back under.
    fn revive_node(&mut self, list: ElementId, anchor: Anchor, node: &Snap) -> (r: Option<Stamp>)
        requires
            old(self).wf(),
        ensures
            final(self).wf(),
            r == old(self)@.revival(list, anchor, node@),
            final(self)@ == old(self)@.revived_node(list, anchor, node@),
        decreases *node, 1nat,
    {
        reveal(DocV::revival);
        proof {
            lemma_snap_parts(*node);
        }
        match node {
            Snap::Text(s) => {
                let r = self.emit_stamped(list, OpKind::XmlInsertChild { tag: None, anchor });
                if let Some(stamp) = r {
                    self.fill_text(xml_child_id(list, stamp, ElementKind::Text), s);
                }
                r
            },
            Snap::XmlElement { tag, attrs, children } => {
                let tag = Some(slice_to_vec(tag.as_slice()));
                let r = self.emit_stamped(list, OpKind::XmlInsertChild { tag, anchor });
                if let Some(stamp) = r {
                    let child = xml_child_id(list, stamp, ElementKind::XmlElement);
                    self.fill_slots(XmlElement::attrs_id(child), attrs);
                    self.fill_children(XmlElement::children_id(child), children);
                }
                r
            },
            _ => None,
        }
    }

    // --- one action ---

    fn follow_anchor(&self, seq: ElementId, a: Anchor) -> (r: Anchor)
        requires
            self.wf(),
        ensures
            r == follow_anchor(self@.history, seq, a),
    {
        Anchor {
            parent: match a.parent {
                Some(id) => Some(self.history.current(seq, id)),
                None => None,
            },
            side: a.side,
        }
    }

    /// Point an action at whatever stands for the ids it names now.
    fn follow_revivals(&self, seq: ElementId, kind: &OpKind) -> (r: OpKind)
        requires
            self.wf(),
        ensures
            r@ == follow_kind(self@.history, seq, kind@),
    {
        match kind {
            OpKind::ListDelete { id } => OpKind::ListDelete { id: self.history.current(seq, *id) },
            OpKind::ListInsert { value, anchor } => OpKind::ListInsert {
                value: value.clone(),
                anchor: self.follow_anchor(seq, *anchor),
            },
            OpKind::TextInsert { s, anchor } => OpKind::TextInsert {
                s: s.clone(),
                anchor: self.follow_anchor(seq, *anchor),
            },
            OpKind::XmlInsertChild { tag, anchor } => OpKind::XmlInsertChild {
                tag: copy_opt(tag),
                anchor: self.follow_anchor(seq, *anchor),
            },
            OpKind::TextDelete { ids } => OpKind::TextDelete { ids: self.follow_ids(seq, ids) },
            OpKind::XmlMove { node, anchor } => OpKind::XmlMove {
                node: self.history.current_element(*node),
                anchor: self.follow_anchor(seq, *anchor),
            },
            OpKind::RangedSetPayload { id, payload } => OpKind::RangedSetPayload {
                id: self.history.current_element(*id),
                payload: payload.clone(),
            },
            OpKind::RangedDelete { id } => OpKind::RangedDelete {
                id: self.history.current_element(*id),
            },
            OpKind::AclRevoke { id } => OpKind::AclRevoke {
                id: self.history.current_element(*id),
            },
            other => other.clone(),
        }
    }

    fn follow_ids(&self, seq: ElementId, ids: &Vec<Stamp>) -> (out: Vec<Stamp>)
        requires
            self.wf(),
        ensures
            out@ == ids@.map_values(|id: Stamp| self@.history.current(seq, id)),
    {
        let ghost f = |id: Stamp| self@.history.current(seq, id);
        let mut out: Vec<Stamp> = Vec::new();
        let mut i: usize = 0;
        while i < ids.len()
            invariant
                self.wf(),
                f == (|id: Stamp| self@.history.current(seq, id)),
                i <= ids@.len(),
                out@ =~= ids@.map_values(f).take(i as int),
            decreases ids@.len() - i,
        {
            out.push(self.history.current(seq, ids[i]));
            i += 1;
        }
        proof {
            assert(ids@.map_values(f).take(i as int) =~= ids@.map_values(f));
        }
        out
    }

    fn substitute(&mut self, seq: ElementId, was: Stamp, now: Stamp)
        requires
            old(self).wf(),
        ensures
            final(self).wf(),
            final(self)@ == old(self)@.with_history(
                old(self)@.history.substitute(seq, was, now),
            ),
    {
        self.history.substitute(seq, was, now);
        proof {
            assert(self@ =~= old(self)@.with_history(
                old(self)@.history.substitute(seq, was, now),
            ));
        }
    }

    fn substitute_element(&mut self, was: ElementId, now: ElementId)
        requires
            old(self).wf(),
        ensures
            final(self).wf(),
            final(self)@ == old(self)@.with_history(
                old(self)@.history.substitute_element(was, now),
            ),
    {
        self.history.substitute_element(was, now);
        proof {
            assert(self@ =~= old(self)@.with_history(
                old(self)@.history.substitute_element(was, now),
            ));
        }
    }

    fn node_at(&self, list: ElementId, stamp: Stamp) -> (r: Option<ElementId>)
        requires
            self.wf(),
        ensures
            r == self@.node_at(list, stamp),
    {
        reveal(DocV::node_at);
        let x = xml_child_id(list, stamp, ElementKind::XmlElement);
        if self.tree.node_element(x).is_some() {
            return Some(x);
        }
        let t = xml_child_id(list, stamp, ElementKind::Text);
        if self.tree.node_element(t).is_some() {
            return Some(t);
        }
        None
    }

    fn replace_run(&mut self, text: ElementId, was: &Vec<Stamp>, now: Stamp)
        requires
            old(self).wf(),
            now.offset == 0,
        ensures
            final(self).wf(),
            final(self)@ == old(self)@.with_run_replaced(text, was@, now, was@.len()),
    {
        let mut i: usize = 0;
        while i < was.len()
            invariant
                self.wf(),
                i <= was@.len(),
                now.offset == 0,
                self@ == old(self)@.with_run_replaced(text, was@, now, i as nat),
            decreases was@.len() - i,
        {
            self.substitute(text, was[i], now.run_member(i as u64));
            i += 1;
        }
    }

    /// Emit one undo action, recording what it revives.
    fn emit_inverse(&mut self, step: &Step)
        requires
            old(self).wf(),
        ensures
            final(self).wf(),
            final(self)@ == old(self)@.undid(step@),
    {
        reveal(DocV::undid);
        match step {
            Step::Op { target, kind } => self.undo_op(*target, kind),
            Step::Regrant { target, subject, grant, effect, path, grantor, was } => {
                let kind = OpKind::AclGrant {
                    subject: subject.clone(),
                    grant: grant.clone(),
                    effect: *effect,
                    path: slice_to_vec(path.as_slice()),
                    grantor: *grantor,
                };
                self.undo_revoke(*target, kind, *was)
            },
            Step::ReviveItem { list, anchor, value, was } => {
                let kind = OpKind::ListInsert { value: value.clone(), anchor: *anchor };
                self.undo_delete(*list, kind, *was)
            },
            Step::ReviveRun { text, anchor, s, was } => {
                let kind = OpKind::TextInsert { s: s.clone(), anchor: *anchor };
                self.undo_cut(*text, kind, was)
            },
            Step::ReviveNode { list, anchor, node, was, was_node } => {
                self.undo_node_delete(*list, *anchor, node, *was, *was_node)
            },
            Step::Ranged { start, end, name, payload, was } => {
                self.revive_ranged(*start, *end, name, payload, *was)
            },
        }
    }

    fn undo_op(&mut self, target: ElementId, kind: &OpKind)
        requires
            old(self).wf(),
        ensures
            final(self).wf(),
            final(self)@ == old(self)@.undid_op(target, kind@),
    {
        reveal(DocV::undid_op);
        let at = self.history.current_element(target);
        let kind = self.follow_revivals(at, kind);
        self.emit(at, kind);
    }

    fn undo_revoke(&mut self, target: ElementId, kind: OpKind, was: ElementId)
        requires
            old(self).wf(),
        ensures
            final(self).wf(),
            final(self)@ == old(self)@.undid_revoke(target, kind@, was),
    {
        reveal(DocV::undid_revoke);
        if let Some(stamp) = self.emit_stamped(target, kind) {
            self.substitute_element(was, acl_id(stamp));
        }
    }

    fn undo_delete(&mut self, list: ElementId, kind: OpKind, was: Stamp)
        requires
            old(self).wf(),
        ensures
            final(self).wf(),
            final(self)@ == old(self)@.undid_delete(list, kind@, was),
    {
        reveal(DocV::undid_delete);
        if let Some(now) = self.emit_stamped(list, kind) {
            self.substitute(list, was, now);
        }
    }

    fn undo_cut(&mut self, text: ElementId, kind: OpKind, was: &Vec<Stamp>)
        requires
            old(self).wf(),
        ensures
            final(self).wf(),
            final(self)@ == old(self)@.undid_cut(text, kind@, was@),
    {
        reveal(DocV::undid_cut);
        if let Some(now) = self.emit_stamped(text, kind) {
            self.replace_run(text, was, now);
        }
    }

    fn undo_node_delete(
        &mut self,
        list: ElementId,
        anchor: Anchor,
        node: &Snap,
        was: Stamp,
        was_node: ElementId,
    )
        requires
            old(self).wf(),
        ensures
            final(self).wf(),
            final(self)@ == old(self)@.undid_node(list, anchor, node@, was, was_node),
    {
        reveal(DocV::undid_node);
        if let Some(now) = self.revive_node(list, anchor, node) {
            self.substitute(list, was, now);
            if let Some(x) = self.node_at(list, now) {
                self.substitute_element(was_node, x);
                self.substitute_element(XmlElement::attrs_id(was_node), XmlElement::attrs_id(x));
                self.substitute_element(
                    XmlElement::children_id(was_node),
                    XmlElement::children_id(x),
                );
            }
        }
    }

    fn fill_payload(&mut self, ranged: ElementId, payload: &Snap)
        requires
            old(self).wf(),
        ensures
            final(self).wf(),
            final(self)@ == old(self)@.fill_payload(ranged, payload@),
    {
        reveal(DocV::fill_payload);
        proof {
            lemma_snap_parts(*payload);
        }
        match payload {
            Snap::LwwMap(slots) => self.fill_slots(payload_id(ranged, ElementKind::LwwMap), slots),
            Snap::List(values) => self.fill_list(payload_id(ranged, ElementKind::List), values),
            Snap::Text(s) => self.fill_text(payload_id(ranged, ElementKind::Text), s),
            _ => {},
        }
    }

    /// Make a captured annotation again, with its payload.
    fn revive_ranged(
        &mut self,
        start: RangeAnchor,
        end: RangeAnchor,
        name: &Option<Vec<u8>>,
        payload: &Snap,
        was: ElementId,
    )
        requires
            old(self).wf(),
        ensures
            final(self).wf(),
            final(self)@ == old(self)@.undid_ranged(
                start,
                end,
                opt_bytes(*name),
                payload@,
                was,
            ),
    {
        reveal(DocV::undid_ranged);
        let init = match payload {
            Snap::Scalar(v) => RangedInit::Scalar(v.clone()),
            Snap::LwwMap(_) => RangedInit::Composite(ElementKind::LwwMap),
            Snap::List(_) => RangedInit::Composite(ElementKind::List),
            Snap::Text(_) => RangedInit::Composite(ElementKind::Text),
            _ => {
                return;
            },
        };
        let kind = OpKind::RangedCreate { start, end, payload: init, name: copy_opt(name) };
        let stamp = match self.emit_stamped(root_id(), kind) {
            Some(s) => s,
            None => {
                return;
            },
        };
        let now = ranged_id(stamp);
        self.fill_payload(now, payload);
        self.substitute_element(was, now);
        self.substitute_element(
            payload_id(was, ElementKind::LwwMap),
            payload_id(now, ElementKind::LwwMap),
        );
        self.substitute_element(
            payload_id(was, ElementKind::List),
            payload_id(now, ElementKind::List),
        );
        self.substitute_element(
            payload_id(was, ElementKind::Text),
            payload_id(now, ElementKind::Text),
        );
    }
}

// --- the plan ---

fn target_of(step: &Step) -> (id: ElementId)
    ensures
        id == step_target(step@),
{
    match step {
        Step::Op { target, .. } => *target,
        Step::ReviveItem { list, .. } => *list,
        Step::ReviveNode { list, .. } => *list,
        Step::ReviveRun { text, .. } => *text,
        Step::Regrant { target, .. } => *target,
        Step::Ranged { .. } => root_id(),
    }
}

fn installed_by(step: &Step) -> (id: Option<ElementId>)
    ensures
        id == installs(step@),
{
    match step {
        Step::Op { target, kind } => match kind {
            OpKind::MapCreate { key } => Some(
                ElementId::derive(*target, key.as_slice(), ElementKind::LwwMap),
            ),
            OpKind::ListCreate { key } => Some(
                ElementId::derive(*target, key.as_slice(), ElementKind::List),
            ),
            OpKind::TextCreate { key } => Some(
                ElementId::derive(*target, key.as_slice(), ElementKind::Text),
            ),
            OpKind::XmlElementCreate { key, tag } => Some(
                XmlElement::node_id(*target, key.as_slice(), tag.as_slice()),
            ),
            OpKind::XmlFragmentCreate { key } => Some(
                XmlFragment::node_id(*target, key.as_slice()),
            ),
            _ => None,
        },
        _ => None,
    }
}

/// Where in a plan the last action that installs a container is.
fn find_installer(plan: &Vec<Step>, id: ElementId) -> (r: Option<usize>)
    ensures
        match r {
            Some(i) => i < plan@.len() && installer(steps_view(plan@), id) == Some(plan@[i as int]@),
            None => installer(steps_view(plan@), id) is None,
        },
{
    let ghost s = steps_view(plan@);
    let mut i: usize = plan.len();
    proof {
        assert(s.take(i as int) =~= s);
    }
    while i > 0
        invariant
            s == steps_view(plan@),
            i <= plan@.len(),
            installer(s, id) == installer(s.take(i as int), id),
        decreases i,
    {
        proof {
            assert(s.take(i as int).drop_last() =~= s.take(i - 1));
            assert(s.take(i as int).last() == plan@[i - 1]@);
        }
        if let Some(x) = installed_by(&plan[i - 1]) {
            if x == id {
                return Some(i - 1);
            }
        }
        i -= 1;
    }
    None
}

impl Tree {
    fn removes(&self, step: &Step) -> (r: Option<ElementId>)
        requires
            self.wf(),
        ensures
            r == self@.removes(step@),
    {
        match step {
            Step::Op { target, kind: OpKind::ListDelete { id } } => match self.lists.get(*target) {
                Some(l) => match l.node_value(*id) {
                    Some(e) => if e.is_container() {
                        e.opt_id()
                    } else {
                        None
                    },
                    None => None,
                },
                None => None,
            },
            _ => None,
        }
    }

    fn under_any(&self, id: ElementId, roots: &Vec<ElementId>) -> (b: bool)
        requires
            self.wf(),
        ensures
            b == self@.under_any(id, roots@, self@.parents.dom().len() + 1),
    {
        let n: usize = self.parents.len();
        let ghost fuel = (n + 1) as nat;
        let mut cur = id;
        let mut i: usize = 0;
        loop
            invariant
                self.wf(),
                n == self@.parents.dom().len(),
                fuel == n + 1,
                i <= n,
                self@.under_any(id, roots@, fuel) == self@.under_any(
                    cur,
                    roots@,
                    (fuel - i) as nat,
                ),
            decreases n - i,
        {
            if has_id(roots, cur) {
                return true;
            }
            if cur == root_id() {
                return false;
            }
            match self.parents.get(&cur) {
                Some(p) => {
                    cur = *p;
                },
                None => {
                    return false;
                },
            }
            if i == n {
                proof {
                    assert(!self@.under_any(cur, roots@, 0));
                }
                return false;
            }
            i += 1;
        }
    }

    /// Order an intention's actions for replay.
    fn plan(&self, steps: Vec<Step>) -> (out: Vec<Step>)
        requires
            self.wf(),
        ensures
            steps_view(out@) == self@.plan(steps_view(steps@)),
    {
        reveal(TreeV::plan);
        let mut rest = steps;
        let ghost all = steps_view(rest@);
        let ghost back = all.reverse();
        let mut removed: Vec<ElementId> = Vec::new();
        let mut i: usize = rest.len();
        proof {
            assert(back.take(0) =~= Seq::empty());
            assert(removed@ =~= Seq::empty());
        }
        while i > 0
            invariant
                self.wf(),
                all == steps_view(rest@),
                back == all.reverse(),
                i <= rest@.len(),
                removed@ == self@.removed_by(back.take(rest@.len() - i)),
            decreases i,
        {
            let ghost k = rest@.len() - i;
            proof {
                assert(back.take(k + 1).drop_last() =~= back.take(k));
                assert(back.take(k + 1).last() == rest@[i - 1]@);
            }
            if let Some(id) = self.removes(&rest[i - 1]) {
                removed.push(id);
            }
            i -= 1;
        }
        proof {
            assert(back.take(back.len() as int) =~= back);
        }
        let mut out: Vec<Step> = Vec::new();
        let ghost mut done: int = 0;
        proof {
            assert(back.take(0) =~= Seq::empty());
            assert(steps_view(out@) =~= Seq::empty());
            assert(all.take(all.len() as int) =~= all);
        }
        while rest.len() > 0
            invariant
                self.wf(),
                back == all.reverse(),
                0 <= done <= all.len(),
                rest@.len() == all.len() - done,
                steps_view(rest@) == all.take(all.len() - done),
                removed@ == self@.removed_by(back),
                steps_view(out@) == self@.kept_steps(back.take(done), removed@),
            decreases rest@.len(),
        {
            let ghost before = rest@;
            let step = match rest.pop() {
                Some(s) => s,
                None => {
                    return out;
                },
            };
            proof {
                assert(steps_view(before).last() == step@);
                assert(back[done] == all[all.len() - 1 - done]);
                assert(back.take(done + 1).drop_last() =~= back.take(done));
                assert(back.take(done + 1).last() == step@);
                assert(steps_view(rest@) =~= all.take(all.len() - done - 1));
            }
            let ghost o = steps_view(out@);
            let ghost sv = step@;
            if !self.under_any(target_of(&step), &removed) {
                out.push(step);
                proof {
                    assert(steps_view(out@) =~= o.push(sv));
                }
            }
            proof {
                done = done + 1;
            }
        }
        proof {
            assert(back.take(done) =~= back);
        }
        out
    }

    /// Where in a plan the actions are that would install the containers above `id`.
    fn chain(&self, plan: &Vec<Step>, id: ElementId) -> (out: Vec<usize>)
        requires
            self.wf(),
        ensures
            forall|i: int| 0 <= i < out@.len() ==> #[trigger] out@[i] < plan@.len(),
            picked(plan@, out@) == self@.chain(
                steps_view(plan@),
                id,
                self@.parents.dom().len() + 1,
            ),
    {
        let n: usize = self.parents.len();
        let ghost fuel = (n + 1) as nat;
        let ghost p = steps_view(plan@);
        let mut out: Vec<usize> = Vec::new();
        let mut cur = id;
        let mut i: usize = 0;
        proof {
            assert(picked(plan@, out@) =~= Seq::empty());
            assert(Seq::<StepV>::empty() + self@.chain(p, id, fuel) =~= self@.chain(p, id, fuel));
        }
        loop
            invariant
                self.wf(),
                n == self@.parents.dom().len(),
                fuel == n + 1,
                p == steps_view(plan@),
                i <= n,
                forall|k: int| 0 <= k < out@.len() ==> #[trigger] out@[k] < plan@.len(),
                self@.chain(p, id, fuel) == picked(plan@, out@) + self@.chain(
                    p,
                    cur,
                    (fuel - i) as nat,
                ),
            decreases n - i,
        {
            let ghost before = picked(plan@, out@);
            let found = find_installer(plan, cur);
            if let Some(k) = found {
                out.push(k);
                proof {
                    assert(picked(plan@, out@) =~= before.push(plan@[k as int]@));
                }
            }
            let ghost here = match installer(p, cur) {
                Some(s) => seq![s],
                None => Seq::<StepV>::empty(),
            };
            proof {
                assert(picked(plan@, out@) =~= before + here);
            }
            if cur == root_id() {
                return out;
            }
            match self.parents.get(&cur) {
                Some(q) => {
                    proof {
                        let rest = self@.chain(p, *q, (fuel - i - 1) as nat);
                        assert(before + (here + rest) =~= (before + here) + rest);
                    }
                    cur = *q;
                },
                None => {
                    return out;
                },
            }
            if i == n {
                proof {
                    assert(self@.chain(p, cur, 0) =~= Seq::empty());
                    assert(picked(plan@, out@) + Seq::<StepV>::empty() =~= picked(plan@, out@));
                }
                return out;
            }
            i += 1;
        }
    }
}

/// The actions at some places of a plan.
spec fn picked(plan: Seq<Step>, at: Seq<usize>) -> Seq<StepV> {
    at.map_values(|i: usize| plan[i as int]@)
}

/// Whether an id is one of some.
fn has_id(ids: &Vec<ElementId>, id: ElementId) -> (b: bool)
    ensures
        b == ids@.contains(id),
{
    let mut i: usize = 0;
    while i < ids.len()
        invariant
            i <= ids@.len(),
            forall|j: int| 0 <= j < i ==> ids@[j] != id,
        decreases ids@.len() - i,
    {
        if ids[i] == id {
            return true;
        }
        i += 1;
    }
    false
}

impl Document {
    /// Install the containers above a target again, outermost first.
    fn reinstate(&mut self, plan: &Vec<Step>, target: ElementId)
        requires
            old(self).wf(),
        ensures
            final(self).wf(),
            final(self)@ == old(self)@.reinstalled(
                old(self)@.tree.chain(
                    steps_view(plan@),
                    target,
                    old(self)@.tree.parents.dom().len() + 1,
                ),
            ),
    {
        let at = self.tree.chain(plan, target);
        let ghost c = picked(plan@, at@);
        let mut i: usize = at.len();
        proof {
            assert(c.take(i as int) =~= c);
        }
        while i > 0
            invariant
                self.wf(),
                c == picked(plan@, at@),
                c == old(self)@.tree.chain(
                    steps_view(plan@),
                    target,
                    old(self)@.tree.parents.dom().len() + 1,
                ),
                i <= at@.len(),
                forall|k: int| 0 <= k < at@.len() ==> #[trigger] at@[k] < plan@.len(),
                old(self)@.reinstalled(c) == self@.reinstalled(c.take(i as int)),
            decreases i,
        {
            proof {
                assert(c.take(i as int).drop_last() =~= c.take(i - 1));
                assert(c.take(i as int).last() == plan@[at@[i - 1] as int]@);
            }
            match &plan[at[i - 1]] {
                Step::Op { target, kind } => {
                    if !self.tree.materialised(*target) {
                        return;
                    }
                    self.emit(*target, kind.clone());
                },
                _ => {
                    return;
                },
            }
            i -= 1;
        }
    }

    fn replay_step(&mut self, plan: &Vec<Step>, i: usize)
        requires
            old(self).wf(),
            i < plan@.len(),
        ensures
            final(self).wf(),
            final(self)@ == old(self)@.replayed_step(steps_view(plan@), plan@[i as int]@),
    {
        reveal(DocV::replayed_step);
        let step = &plan[i];
        let target = self.history.current_element(target_of(step));
        if !self.tree.resolvable(target) {
            self.reinstate(plan, target);
        }
        if self.tree.materialised(target) {
            self.emit_inverse(step);
        }
    }

    /// Emit an intention's actions in order.
    fn run_plan(&mut self, plan: &Vec<Step>)
        requires
            old(self).wf(),
        ensures
            final(self).wf(),
            final(self)@ == old(self)@.replayed_upto(steps_view(plan@), plan@.len()),
    {
        let ghost pv = steps_view(plan@);
        let mut i: usize = 0;
        while i < plan.len()
            invariant
                self.wf(),
                pv == steps_view(plan@),
                i <= plan@.len(),
                self@ == old(self)@.replayed_upto(pv, i as nat),
            decreases plan@.len() - i,
        {
            proof {
                assert(pv[i as int] == plan@[i as int]@);
            }
            self.replay_step(plan, i);
            i += 1;
        }
    }

    /// Gather a replay's ops, grouped if the intention was an atomic one.
    fn close_replay(&mut self, atomic: bool) -> (ops: Vec<Op>)
        requires
            old(self).wf(),
        ensures
            final(self).wf(),
            final(self)@ == old(self)@.closed_replay(atomic),
            ops_view(ops@) == old(self)@.gathered(atomic),
    {
        reveal(DocV::closed_replay);
        reveal(DocV::gathered);
        let ghost ran = self@;
        let mut ops: Vec<Op> = Vec::new();
        std::mem::swap(&mut ops, &mut self.pending);
        proof {
            assert(ops_view(self.pending@) =~= Seq::empty());
        }
        if !atomic {
            self.history.close(false);
            proof {
                assert(self@ =~= (DocV {
                    pending: Seq::empty(),
                    history: ran.history.close(false),
                    ..ran
                }));
            }
            return ops;
        }
        let mut acc: Option<Vec<Op>> = None;
        std::mem::swap(&mut acc, &mut self.atomic);
        let mut all: Vec<Op> = match acc {
            Some(a) => a,
            None => Vec::new(),
        };
        let ghost a = all@;
        let ghost o = ops@;
        all.append(&mut ops);
        proof {
            assert(ops_view(all@) =~= ops_view(a) + ops_view(o));
            if ran.atomic is None {
                assert(ops_view(a) =~= Seq::empty());
            }
        }
        self.atomic = Some(all);
        proof {
            assert(self@ =~= (DocV {
                pending: Seq::empty(),
                atomic: Some(ran.open_group() + ran.pending),
                ..ran
            }));
            reveal(DocV::committed_atomic);
        }
        self.commit_atomic()
    }

    /// Emit an intention's inverses, the last edit's first, and return their ops. What
    /// they record closes as the mirror intention on `landing`.
    fn replay(&mut self, it: Intention, landing: Landing) -> (ops: Vec<Op>)
        requires
            old(self).wf(),
        ensures
            final(self).wf(),
            final(self)@ == old(self)@.replayed(it@, landing),
            ops_view(ops@) == old(self)@.replay_ops(it@, landing),
    {
        reveal(DocV::replayed);
        reveal(DocV::replay_ops);
        reveal(DocV::replay_ran);
        let ghost iv = it@;
        let Intention { origin, steps, atomic } = it;
        self.mint_refused = false;
        let saved = self.history.begin_replay(origin.as_slice(), landing);
        if atomic {
            self.begin_atomic();
        }
        self.pending = Vec::new();
        proof {
            reveal(DocV::replay_begun);
            assert(self@ =~= old(self)@.replay_begun(iv, landing));
        }
        let plan = self.tree.plan(steps);
        self.run_plan(&plan);
        self.drain_buffer();
        let out = self.close_replay(atomic);
        self.history.end_replay(saved);
        self.history.prune();
        proof {
            assert(self@ =~= old(self)@.replayed(iv, landing));
        }
        out
    }

    /// Revert `origin`'s latest intention and return the ops that did, or nothing if it
    /// has none or an intention is open. The intention becomes redoable.
    pub fn undo(&mut self, origin: &[u8]) -> (r: Option<Vec<Op>>)
        requires
            old(self).wf(),
        ensures
            final(self).wf(),
            match old(self)@.next_intention(origin@, Landing::Undo) {
                None => r is None && final(self)@ == old(self)@,
                Some(it) => {
                    let d = old(self)@.with_taken(origin@, Landing::Undo);
                    r matches Some(ops) && ops_view(ops@) == d.replay_ops(it, Landing::Redo)
                        && final(self)@ == d.replayed(it, Landing::Redo)
                },
            },
    {
        if self.recording_intention() {
            return None;
        }
        let it = match self.history.take(origin, Landing::Undo) {
            Some(it) => it,
            None => {
                proof {
                    assert(self@ =~= old(self)@);
                }
                return None;
            },
        };
        proof {
            assert(self@ =~= old(self)@.with_taken(origin@, Landing::Undo));
        }
        Some(self.replay(it, Landing::Redo))
    }

    /// Replay `origin`'s most recently undone intention and return its ops.
    pub fn redo(&mut self, origin: &[u8]) -> (r: Option<Vec<Op>>)
        requires
            old(self).wf(),
        ensures
            final(self).wf(),
            match old(self)@.next_intention(origin@, Landing::Redo) {
                None => r is None && final(self)@ == old(self)@,
                Some(it) => {
                    let d = old(self)@.with_taken(origin@, Landing::Redo);
                    r matches Some(ops) && ops_view(ops@) == d.replay_ops(it, Landing::Undo)
                        && final(self)@ == d.replayed(it, Landing::Undo)
                },
            },
    {
        if self.recording_intention() {
            return None;
        }
        let it = match self.history.take(origin, Landing::Redo) {
            Some(it) => it,
            None => {
                proof {
                    assert(self@ =~= old(self)@);
                }
                return None;
            },
        };
        proof {
            assert(self@ =~= old(self)@.with_taken(origin@, Landing::Redo));
        }
        Some(self.replay(it, Landing::Undo))
    }
}

} // verus!
