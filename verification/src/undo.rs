//! The undo history: the inverses of the edits a replica made, stacked by intention.
//!
//! Recording is off until an origin is set. An intention is one undo step, however many
//! edits it spans; an origin undoes and redoes only its own. A deleted item comes back
//! under a new id, so the history also keeps which id replaced which.

use crate::acl::{AclEffect, AclGrant, AclGrantV, AclSubject, AclSubjectV};
use crate::anchor::Anchor;
use crate::annot::Placement;
use crate::bytes::{bytes_eq, copy_opt, opt_bytes};
use crate::clientid::ClientId;
use crate::elementid::ElementId;
use crate::op::{OpKind, OpKindV};
use crate::ranged::RangeAnchor;
use crate::scalar::{Scalar, ScalarV};
use crate::stamp::Stamp;
use crate::table::{Key, Table};
use vstd::prelude::*;
use vstd::slice::slice_to_vec;

verus! {

/// How deep a captured element may nest.
pub const MAX_SNAPSHOT_DEPTH: u32 = 64;

/// An element captured deeply enough to rebuild it out of ops.
pub enum Snap {
    Scalar(Scalar),
    Register(Scalar),
    Counter(i64),
    LwwMap(Vec<(Vec<u8>, Snap)>),
    List(Vec<Scalar>),
    Text(String),
    XmlElement { tag: Vec<u8>, attrs: Vec<(Vec<u8>, Snap)>, children: Vec<Snap> },
    XmlFragment { children: Vec<Snap> },
}

/// A captured element, by value.
pub enum SnapV {
    Scalar(ScalarV),
    Register(ScalarV),
    Counter(i64),
    LwwMap(Seq<(Seq<u8>, SnapV)>),
    List(Seq<ScalarV>),
    Text(Seq<char>),
    XmlElement { tag: Seq<u8>, attrs: Seq<(Seq<u8>, SnapV)>, children: Seq<SnapV> },
    XmlFragment { children: Seq<SnapV> },
}

impl View for Snap {
    type V = SnapV;

    open spec fn view(&self) -> SnapV {
        snap_view(*self)
    }
}

/// A captured element and everything in it, by value.
pub open spec fn snap_view(s: Snap) -> SnapV
    decreases s,
{
    match s {
        Snap::Scalar(v) => SnapV::Scalar(v@),
        Snap::Register(v) => SnapV::Register(v@),
        Snap::Counter(n) => SnapV::Counter(n),
        Snap::LwwMap(slots) => SnapV::LwwMap(
            Seq::new(
                slots@.len(),
                |i: int|
                    if 0 <= i < slots@.len() {
                        (slots@[i].0@, snap_view(slots@[i].1))
                    } else {
                        (Seq::empty(), SnapV::Counter(0))
                    },
            ),
        ),
        Snap::List(values) => SnapV::List(values@.map_values(|v: Scalar| v@)),
        Snap::Text(t) => SnapV::Text(t@),
        Snap::XmlElement { tag, attrs, children } => SnapV::XmlElement {
            tag: tag@,
            attrs: Seq::new(
                attrs@.len(),
                |i: int|
                    if 0 <= i < attrs@.len() {
                        (attrs@[i].0@, snap_view(attrs@[i].1))
                    } else {
                        (Seq::empty(), SnapV::Counter(0))
                    },
            ),
            children: Seq::new(
                children@.len(),
                |i: int|
                    if 0 <= i < children@.len() {
                        snap_view(children@[i])
                    } else {
                        SnapV::Counter(0)
                    },
            ),
        },
        Snap::XmlFragment { children } => SnapV::XmlFragment {
            children: Seq::new(
                children@.len(),
                |i: int|
                    if 0 <= i < children@.len() {
                        snap_view(children@[i])
                    } else {
                        SnapV::Counter(0)
                    },
            ),
        },
    }
}

/// Captured slots, by value.
pub open spec fn slots_by_value(s: Seq<(Vec<u8>, Snap)>) -> Seq<(Seq<u8>, SnapV)> {
    s.map_values(|p: (Vec<u8>, Snap)| (p.0@, p.1@))
}

/// Captured children, by value.
pub open spec fn snaps_by_value(s: Seq<Snap>) -> Seq<SnapV> {
    s.map_values(|p: Snap| p@)
}

/// A captured element's parts, by value.
pub proof fn lemma_snap_parts(s: Snap)
    ensures
        match s {
            Snap::LwwMap(slots) => s@ == SnapV::LwwMap(slots_by_value(slots@)),
            Snap::XmlElement { tag, attrs, children } => s@ == (SnapV::XmlElement {
                tag: tag@,
                attrs: slots_by_value(attrs@),
                children: snaps_by_value(children@),
            }),
            Snap::XmlFragment { children } => s@ == (SnapV::XmlFragment {
                children: snaps_by_value(children@),
            }),
            _ => true,
        },
{
    match s {
        Snap::LwwMap(slots) => {
            assert(s@->LwwMap_0 =~= slots_by_value(slots@));
        },
        Snap::XmlElement { tag, attrs, children } => {
            assert(s@->XmlElement_attrs =~= slots_by_value(attrs@));
            assert(s@->XmlElement_children =~= snaps_by_value(children@));
        },
        Snap::XmlFragment { children } => {
            assert(s@->XmlFragment_children =~= snaps_by_value(children@));
        },
        _ => {},
    }
}

/// One action of an undo step.
pub enum Step {
    /// An ordinary op.
    Op { target: ElementId, kind: OpKind },
    /// A revoked grant made again.
    Regrant {
        target: ElementId,
        subject: AclSubject,
        grant: AclGrant,
        effect: AclEffect,
        path: Vec<u8>,
        grantor: ClientId,
        was: ElementId,
    },
    /// A deleted scalar item inserted again.
    ReviveItem { list: ElementId, anchor: Anchor, value: Scalar, was: Stamp },
    /// Deleted codepoints inserted again.
    ReviveRun { text: ElementId, anchor: Anchor, s: String, was: Vec<Stamp> },
    /// A deleted node built again.
    ReviveNode { list: ElementId, anchor: Anchor, node: Snap, was: Stamp, was_node: ElementId },
    /// A deleted annotation made again.
    Ranged {
        start: RangeAnchor,
        end: RangeAnchor,
        name: Option<Vec<u8>>,
        payload: Snap,
        was: ElementId,
    },
}

/// An undo action, by value.
pub enum StepV {
    Op { target: ElementId, kind: OpKindV },
    Regrant {
        target: ElementId,
        subject: AclSubjectV,
        grant: AclGrantV,
        effect: AclEffect,
        path: Seq<u8>,
        grantor: ClientId,
        was: ElementId,
    },
    ReviveItem { list: ElementId, anchor: Anchor, value: ScalarV, was: Stamp },
    ReviveRun { text: ElementId, anchor: Anchor, s: Seq<char>, was: Seq<Stamp> },
    ReviveNode { list: ElementId, anchor: Anchor, node: SnapV, was: Stamp, was_node: ElementId },
    Ranged {
        start: RangeAnchor,
        end: RangeAnchor,
        name: Option<Seq<u8>>,
        payload: SnapV,
        was: ElementId,
    },
}

impl View for Step {
    type V = StepV;

    open spec fn view(&self) -> StepV {
        match *self {
            Step::Op { target, kind } => StepV::Op { target, kind: kind@ },
            Step::Regrant { target, subject, grant, effect, path, grantor, was } => StepV::Regrant {
                target,
                subject: subject@,
                grant: grant@,
                effect,
                path: path@,
                grantor,
                was,
            },
            Step::ReviveItem { list, anchor, value, was } => StepV::ReviveItem {
                list,
                anchor,
                value: value@,
                was,
            },
            Step::ReviveRun { text, anchor, s, was } => StepV::ReviveRun {
                text,
                anchor,
                s: s@,
                was: was@,
            },
            Step::ReviveNode { list, anchor, node, was, was_node } => StepV::ReviveNode {
                list,
                anchor,
                node: node@,
                was,
                was_node,
            },
            Step::Ranged { start, end, name, payload, was } => StepV::Ranged {
                start,
                end,
                name: opt_bytes(name),
                payload: payload@,
                was,
            },
        }
    }
}

/// Undo actions, by value.
pub open spec fn steps_view(s: Seq<Step>) -> Seq<StepV> {
    s.map_values(|p: Step| p@)
}

/// One undo step: who made it, its actions in the order the edits were made, and whether
/// it was an atomic group.
pub struct Intention {
    pub origin: Vec<u8>,
    pub steps: Vec<Step>,
    pub atomic: bool,
}

/// An undo step, by value.
pub struct IntentionV {
    pub origin: Seq<u8>,
    pub steps: Seq<StepV>,
    pub atomic: bool,
}

impl View for Intention {
    type V = IntentionV;

    open spec fn view(&self) -> IntentionV {
        IntentionV { origin: self.origin@, steps: steps_view(self.steps@), atomic: self.atomic }
    }
}

/// Undo steps, by value.
pub open spec fn intentions_view(s: Seq<Intention>) -> Seq<IntentionV> {
    s.map_values(|p: Intention| p@)
}

/// Which stack a closed intention lands on.
#[derive(Clone, Copy, PartialEq, Eq, Debug, Structural)]
pub enum Landing {
    Undo,
    Redo,
}

/// The recorded history.
pub struct History {
    pub origin: Option<Vec<u8>>,
    pub open: Vec<Step>,
    pub depth: usize,
    pub undo: Vec<Intention>,
    pub redo: Vec<Intention>,
    pub landing: Landing,
    pub replaying: bool,
    pub ids: Table<Placement, Stamp>,
    pub elements: Table<ElementId, ElementId>,
}

/// The recorded history, by value.
#[verifier::ext_equal]
pub struct HistoryV {
    pub origin: Option<Seq<u8>>,
    pub open: Seq<StepV>,
    pub depth: nat,
    pub undo: Seq<IntentionV>,
    pub redo: Seq<IntentionV>,
    pub landing: Landing,
    pub replaying: bool,
    pub ids: Map<Placement, Stamp>,
    pub elements: Map<ElementId, ElementId>,
}

impl View for History {
    type V = HistoryV;

    open spec fn view(&self) -> HistoryV {
        HistoryV {
            origin: opt_bytes(self.origin),
            open: steps_view(self.open@),
            depth: self.depth as nat,
            undo: intentions_view(self.undo@),
            redo: intentions_view(self.redo@),
            landing: self.landing,
            replaying: self.replaying,
            ids: self.ids@,
            elements: self.elements@,
        }
    }
}

/// The intentions of other origins.
pub open spec fn others(s: Seq<IntentionV>, origin: Seq<u8>) -> Seq<IntentionV>
    decreases s.len(),
{
    if s.len() == 0 {
        Seq::empty()
    } else {
        let rest = others(s.drop_last(), origin);
        if s.last().origin == origin {
            rest
        } else {
            rest.push(s.last())
        }
    }
}

/// Where an origin's latest intention is on a stack.
pub open spec fn latest_of(s: Seq<IntentionV>, origin: Seq<u8>) -> Option<int>
    decreases s.len(),
{
    if s.len() == 0 {
        None
    } else if s.last().origin == origin {
        Some(s.len() - 1)
    } else {
        latest_of(s.drop_last(), origin)
    }
}

/// The id that stands for `id` now: what replaced it, and what replaced that, at most
/// `fuel` times.
pub open spec fn follow_id(ids: Map<Placement, Stamp>, seq: ElementId, id: Stamp, fuel: nat) -> Stamp
    decreases fuel,
{
    let at = Placement { list: seq, stamp: id };
    if fuel > 0 && ids.dom().contains(at) {
        follow_id(ids, seq, ids[at], (fuel - 1) as nat)
    } else {
        id
    }
}

/// The element that stands for `id` now.
pub open spec fn follow_element(
    elements: Map<ElementId, ElementId>,
    id: ElementId,
    fuel: nat,
) -> ElementId
    decreases fuel,
{
    if fuel > 0 && elements.dom().contains(id) {
        follow_element(elements, elements[id], (fuel - 1) as nat)
    } else {
        id
    }
}

impl HistoryV {
    pub open spec fn empty() -> HistoryV {
        HistoryV {
            origin: None,
            open: Seq::empty(),
            depth: 0,
            undo: Seq::empty(),
            redo: Seq::empty(),
            landing: Landing::Undo,
            replaying: false,
            ids: Map::empty(),
            elements: Map::empty(),
        }
    }

    pub open spec fn stack(self, landing: Landing) -> Seq<IntentionV> {
        match landing {
            Landing::Undo => self.undo,
            Landing::Redo => self.redo,
        }
    }

    /// With the actions recorded so far closed as one intention. A new edit drops what
    /// the same origin had undone.
    pub open spec fn close(self, atomic: bool) -> HistoryV {
        match self.origin {
            None => HistoryV { open: Seq::empty(), ..self },
            Some(origin) => if self.open.len() == 0 {
                self
            } else {
                let it = IntentionV { origin, steps: self.open, atomic };
                match self.landing {
                    Landing::Redo => HistoryV {
                        redo: self.redo.push(it),
                        open: Seq::empty(),
                        ..self
                    },
                    Landing::Undo => HistoryV {
                        undo: self.undo.push(it),
                        redo: if self.replaying {
                            self.redo
                        } else {
                            others(self.redo, origin)
                        },
                        open: Seq::empty(),
                        ..self
                    },
                }
            },
        }
    }

    pub open spec fn can(self, origin: Seq<u8>, landing: Landing) -> bool {
        latest_of(self.stack(landing), origin) is Some
    }

    /// With an origin's latest intention taken off a stack.
    pub open spec fn taken(self, origin: Seq<u8>, landing: Landing) -> HistoryV {
        match latest_of(self.stack(landing), origin) {
            None => self,
            Some(i) => match landing {
                Landing::Undo => HistoryV { undo: self.undo.remove(i), ..self },
                Landing::Redo => HistoryV { redo: self.redo.remove(i), ..self },
            },
        }
    }

    pub open spec fn forgotten(self) -> HistoryV {
        HistoryV {
            open: Seq::empty(),
            undo: Seq::empty(),
            redo: Seq::empty(),
            ids: Map::empty(),
            elements: Map::empty(),
            ..self
        }
    }

    /// With the replaced ids dropped once no intention is left to name one.
    pub open spec fn pruned(self) -> HistoryV {
        if self.undo.len() == 0 && self.redo.len() == 0 {
            HistoryV { ids: Map::empty(), elements: Map::empty(), ..self }
        } else {
            self
        }
    }

    pub open spec fn current(self, seq: ElementId, id: Stamp) -> Stamp {
        follow_id(self.ids, seq, id, self.ids.dom().len())
    }

    pub open spec fn current_element(self, id: ElementId) -> ElementId {
        follow_element(self.elements, id, self.elements.dom().len())
    }

    pub open spec fn substitute(self, seq: ElementId, was: Stamp, now: Stamp) -> HistoryV {
        HistoryV { ids: self.ids.insert(Placement { list: seq, stamp: was }, now), ..self }
    }

    pub open spec fn substitute_element(self, was: ElementId, now: ElementId) -> HistoryV {
        HistoryV { elements: self.elements.insert(was, now), ..self }
    }
}

/// The origin and landing a replay puts aside.
pub struct Saved {
    pub origin: Option<Vec<u8>>,
    pub landing: Landing,
    pub replaying: bool,
}

impl History {
    pub open spec fn wf(&self) -> bool {
        self.ids.wf() && self.elements.wf()
    }

    pub fn new() -> (h: Self)
        ensures
            h.wf(),
            h@ == HistoryV::empty(),
    {
        let h = History {
            origin: None,
            open: Vec::new(),
            depth: 0,
            undo: Vec::new(),
            redo: Vec::new(),
            landing: Landing::Undo,
            replaying: false,
            ids: Table::new(),
            elements: Table::new(),
        };
        proof {
            assert(h@ =~= HistoryV::empty());
        }
        h
    }

    /// Record edits under `origin` from now on.
    pub fn track(&mut self, origin: &[u8])
        requires
            old(self).wf(),
        ensures
            final(self).wf(),
            final(self)@ == (HistoryV { origin: Some(origin@), ..old(self)@ }),
    {
        self.origin = Some(slice_to_vec(origin));
    }

    /// Stop recording. What is recorded stays.
    pub fn untrack(&mut self)
        requires
            old(self).wf(),
        ensures
            final(self).wf(),
            final(self)@ == (HistoryV { origin: None, ..old(self)@ }),
    {
        self.origin = None;
    }

    pub fn recording(&self) -> (b: bool)
        ensures
            b == self@.origin is Some,
    {
        self.origin.is_some()
    }

    pub fn grouped(&self) -> (b: bool)
        ensures
            b == (self@.depth > 0),
    {
        self.depth > 0
    }

    /// Open a group; groups nest.
    pub fn open_group(&mut self)
        requires
            old(self).wf(),
            old(self)@.depth < usize::MAX,
        ensures
            final(self).wf(),
            final(self)@ == (HistoryV { depth: old(self)@.depth + 1, ..old(self)@ }),
    {
        self.depth += 1;
    }

    /// Close a group, telling whether it was the outermost.
    pub fn close_group(&mut self) -> (last: bool)
        requires
            old(self).wf(),
        ensures
            final(self).wf(),
            last == (old(self)@.depth == 1),
            final(self)@ == (HistoryV {
                depth: if old(self)@.depth == 0 {
                    0
                } else {
                    (old(self)@.depth - 1) as nat
                },
                ..old(self)@
            }),
    {
        if self.depth == 0 {
            return false;
        }
        self.depth -= 1;
        self.depth == 0
    }

    /// Record one action.
    pub fn push(&mut self, step: Step)
        requires
            old(self).wf(),
        ensures
            final(self).wf(),
            final(self)@ == (HistoryV { open: old(self)@.open.push(step@), ..old(self)@ }),
    {
        let ghost s = self.open@;
        self.open.push(step);
        proof {
            assert(steps_view(self.open@) =~= steps_view(s).push(step@));
        }
    }

    /// Close the recorded actions as one intention.
    pub fn close(&mut self, atomic: bool)
        requires
            old(self).wf(),
        ensures
            final(self).wf(),
            final(self)@ == old(self)@.close(atomic),
    {
        let mut steps: Vec<Step> = Vec::new();
        std::mem::swap(&mut steps, &mut self.open);
        proof {
            assert(steps_view(self.open@) =~= Seq::empty());
        }
        match &self.origin {
            None => {},
            Some(o) => {
                if steps.len() == 0 {
                    return;
                }
                let origin: Vec<u8> = slice_to_vec(o.as_slice());
                let ghost u = self.undo@;
                let ghost r = self.redo@;
                match self.landing {
                    Landing::Redo => {
                        let it = Intention { origin, steps, atomic };
                        let ghost iv = it@;
                        self.redo.push(it);
                        proof {
                            assert(intentions_view(self.redo@) =~= intentions_view(r).push(iv));
                        }
                    },
                    Landing::Undo => {
                        if !self.replaying {
                            drop_origin(&mut self.redo, &origin);
                        }
                        let it = Intention { origin, steps, atomic };
                        let ghost iv = it@;
                        self.undo.push(it);
                        proof {
                            assert(intentions_view(self.undo@) =~= intentions_view(u).push(iv));
                        }
                    },
                }
            },
        }
        proof {
            assert(self@ =~= old(self)@.close(atomic));
        }
    }

    fn find(stack: &Vec<Intention>, origin: &[u8]) -> (r: Option<usize>)
        ensures
            match latest_of(intentions_view(stack@), origin@) {
                Some(i) => r matches Some(j) && j == i && j < stack@.len(),
                None => r is None,
            },
    {
        let ghost s = intentions_view(stack@);
        let mut i: usize = stack.len();
        proof {
            assert(s.take(i as int) =~= s);
        }
        while i > 0
            invariant
                s == intentions_view(stack@),
                i <= stack@.len(),
                latest_of(s, origin@) == latest_of(s.take(i as int), origin@),
            decreases i,
        {
            proof {
                assert(s.take(i as int).drop_last() =~= s.take(i - 1));
                assert(s.take(i as int).last() == stack@[i - 1]@);
            }
            if bytes_eq(stack[i - 1].origin.as_slice(), origin) {
                return Some(i - 1);
            }
            i -= 1;
        }
        None
    }

    /// Whether an origin has an intention on a stack.
    pub fn can(&self, origin: &[u8], landing: Landing) -> (b: bool)
        ensures
            b == self@.can(origin@, landing),
    {
        match landing {
            Landing::Undo => Self::find(&self.undo, origin).is_some(),
            Landing::Redo => Self::find(&self.redo, origin).is_some(),
        }
    }

    /// Take an origin's latest intention off a stack.
    pub fn take(&mut self, origin: &[u8], landing: Landing) -> (r: Option<Intention>)
        requires
            old(self).wf(),
        ensures
            final(self).wf(),
            final(self)@ == old(self)@.taken(origin@, landing),
            match latest_of(old(self)@.stack(landing), origin@) {
                Some(i) => r matches Some(it) && it@ == old(self)@.stack(landing)[i],
                None => r is None,
            },
    {
        match landing {
            Landing::Undo => match Self::find(&self.undo, origin) {
                None => None,
                Some(i) => {
                    let ghost s = self.undo@;
                    let it = self.undo.remove(i);
                    proof {
                        assert(intentions_view(self.undo@) =~= intentions_view(s).remove(i as int));
                        assert(self@ =~= old(self)@.taken(origin@, landing));
                    }
                    Some(it)
                },
            },
            Landing::Redo => match Self::find(&self.redo, origin) {
                None => None,
                Some(i) => {
                    let ghost s = self.redo@;
                    let it = self.redo.remove(i);
                    proof {
                        assert(intentions_view(self.redo@) =~= intentions_view(s).remove(i as int));
                        assert(self@ =~= old(self)@.taken(origin@, landing));
                    }
                    Some(it)
                },
            },
        }
    }

    /// Record under `origin`, landing on `landing`, until the replay ends.
    pub fn begin_replay(&mut self, origin: &[u8], landing: Landing) -> (saved: Saved)
        requires
            old(self).wf(),
        ensures
            final(self).wf(),
            final(self)@ == (HistoryV {
                origin: Some(origin@),
                landing,
                replaying: true,
                ..old(self)@
            }),
            opt_bytes(saved.origin) == old(self)@.origin,
            saved.landing == old(self)@.landing,
            saved.replaying == old(self)@.replaying,
    {
        let saved = Saved {
            origin: copy_opt(&self.origin),
            landing: self.landing,
            replaying: self.replaying,
        };
        self.origin = Some(slice_to_vec(origin));
        self.landing = landing;
        self.replaying = true;
        saved
    }

    pub fn end_replay(&mut self, saved: Saved)
        requires
            old(self).wf(),
        ensures
            final(self).wf(),
            final(self)@ == (HistoryV {
                origin: opt_bytes(saved.origin),
                landing: saved.landing,
                replaying: saved.replaying,
                ..old(self)@
            }),
    {
        self.origin = saved.origin;
        self.landing = saved.landing;
        self.replaying = saved.replaying;
    }

    /// Drop everything recorded. Recording goes on.
    pub fn forget(&mut self)
        requires
            old(self).wf(),
        ensures
            final(self).wf(),
            final(self)@ == old(self)@.forgotten(),
    {
        self.open = Vec::new();
        self.undo = Vec::new();
        self.redo = Vec::new();
        self.ids = Table::new();
        self.elements = Table::new();
        proof {
            assert(self@ =~= old(self)@.forgotten());
        }
    }

    /// Drop the replaced ids once no intention is left to name one.
    pub fn prune(&mut self)
        requires
            old(self).wf(),
        ensures
            final(self).wf(),
            final(self)@ == old(self)@.pruned(),
    {
        if self.undo.len() == 0 && self.redo.len() == 0 {
            self.ids = Table::new();
            self.elements = Table::new();
        }
        proof {
            assert(self@ =~= old(self)@.pruned());
        }
    }

    /// Record that an item came back as another.
    pub fn substitute(&mut self, seq: ElementId, was: Stamp, now: Stamp)
        requires
            old(self).wf(),
        ensures
            final(self).wf(),
            final(self)@ == old(self)@.substitute(seq, was, now),
    {
        self.ids.insert(Placement { list: seq, stamp: was }, now);
    }

    /// Record that an element came back as another.
    pub fn substitute_element(&mut self, was: ElementId, now: ElementId)
        requires
            old(self).wf(),
        ensures
            final(self).wf(),
            final(self)@ == old(self)@.substitute_element(was, now),
    {
        self.elements.insert(was, now);
    }

    /// The id that stands for an item now.
    pub fn current(&self, seq: ElementId, id: Stamp) -> (r: Stamp)
        requires
            self.wf(),
        ensures
            r == self@.current(seq, id),
    {
        let n: usize = self.ids.len();
        let mut left: usize = n;
        let mut cur = id;
        while left > 0
            invariant
                self.wf(),
                n == self@.ids.dom().len(),
                left <= n,
                follow_id(self@.ids, seq, id, n as nat) == follow_id(
                    self@.ids,
                    seq,
                    cur,
                    left as nat,
                ),
            decreases left,
        {
            match self.ids.get(&Placement { list: seq, stamp: cur }) {
                Some(next) => {
                    cur = *next;
                },
                None => {
                    return cur;
                },
            }
            left -= 1;
        }
        cur
    }

    /// The element that stands for `id` now.
    pub fn current_element(&self, id: ElementId) -> (r: ElementId)
        requires
            self.wf(),
        ensures
            r == self@.current_element(id),
    {
        let n: usize = self.elements.len();
        let mut left: usize = n;
        let mut cur = id;
        while left > 0
            invariant
                self.wf(),
                n == self@.elements.dom().len(),
                left <= n,
                follow_element(self@.elements, id, n as nat) == follow_element(
                    self@.elements,
                    cur,
                    left as nat,
                ),
            decreases left,
        {
            match self.elements.get(&cur) {
                Some(next) => {
                    cur = *next;
                },
                None => {
                    return cur;
                },
            }
            left -= 1;
        }
        cur
    }
}

/// Drop an origin's intentions from a stack.
fn drop_origin(stack: &mut Vec<Intention>, origin: &Vec<u8>)
    ensures
        intentions_view(final(stack)@) == others(intentions_view(old(stack)@), origin@),
{
    let ghost s = intentions_view(old(stack)@);
    let mut kept: Vec<Intention> = Vec::new();
    let mut rest: Vec<Intention> = Vec::new();
    std::mem::swap(&mut rest, stack);
    // Taken from the end, so collected in reverse.
    let ghost mut i: int = rest@.len() as int;
    proof {
        assert(s.take(i) =~= s);
        assert(intentions_view(rest@) =~= s.take(i));
        assert(others(s, origin@) =~= others(s.take(i), origin@) + Seq::empty());
    }
    let mut back: Vec<Intention> = Vec::new();
    while rest.len() > 0
        invariant
            0 <= i <= s.len(),
            i == rest@.len(),
            intentions_view(rest@) == s.take(i),
            others(s, origin@) == others(s.take(i), origin@) + intentions_view(back@).reverse(),
        decreases rest@.len(),
    {
        let ghost before = rest@;
        let it = match rest.pop() {
            Some(it) => it,
            None => {
                return;
            },
        };
        proof {
            i = i - 1;
            assert(s.take(i + 1).drop_last() =~= s.take(i));
            assert(s.take(i + 1).last() == before.last()@);
            assert(intentions_view(rest@) =~= s.take(i));
        }
        if !bytes_eq(it.origin.as_slice(), origin.as_slice()) {
            let ghost b = intentions_view(back@);
            let ghost iv = it@;
            back.push(it);
            proof {
                assert(intentions_view(back@) =~= b.push(iv));
                assert(others(s.take(i), origin@).push(iv) + b.reverse() =~= others(
                    s.take(i),
                    origin@,
                ) + b.push(iv).reverse());
            }
        }
    }
    proof {
        assert(s.take(i) =~= Seq::empty());
        assert(others(s.take(i), origin@) =~= Seq::empty());
        assert(Seq::<IntentionV>::empty() + intentions_view(back@).reverse()
            =~= intentions_view(back@).reverse());
    }
    let ghost all = intentions_view(back@);
    proof {
        assert(all.take(all.len() as int) =~= all);
        assert(intentions_view(kept@) =~= Seq::empty());
        assert(all.reverse() =~= intentions_view(kept@) + all.reverse());
    }
    while back.len() > 0
        invariant
            back@.len() <= all.len(),
            intentions_view(back@) == all.take(back@.len() as int),
            all.reverse() == intentions_view(kept@) + intentions_view(back@).reverse(),
        decreases back@.len(),
    {
        let ghost before = back@;
        let ghost k = intentions_view(kept@);
        let it = match back.pop() {
            Some(it) => it,
            None => {
                return;
            },
        };
        let ghost iv = it@;
        kept.push(it);
        proof {
            assert(intentions_view(kept@) =~= k.push(iv));
            assert(intentions_view(before) =~= intentions_view(back@).push(iv));
            assert(k + intentions_view(before).reverse() =~= k.push(iv) + intentions_view(
                back@,
            ).reverse());
            assert(intentions_view(back@) =~= all.take(back@.len() as int));
        }
    }
    proof {
        assert(intentions_view(kept@) + intentions_view(back@).reverse() =~= intentions_view(kept@));
    }
    std::mem::swap(&mut kept, stack);
}

} // verus!
