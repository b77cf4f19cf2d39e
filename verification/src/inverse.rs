//! What would put the state back after an edit, read off the state before it.

use crate::anchor::{Anchor, Side};
use crate::annot::{Payload, PayloadV, Placement};
use crate::bytes::copy_opt;
use crate::clientid::ClientId;
use crate::counter::{tally_sum, Counter, CounterV, Tally};
use crate::element::{Element, ElementV};
use crate::elementid::{derived_id, ElementId, ElementKind};
use crate::fold::latest;
use crate::identity::{
    acl_id, payload_id, ranged_id, spec_acl_id, spec_payload_id, spec_ranged_id,
};
use crate::list::{List, ListV};
use crate::map::{live_value, map_live, pairs_by_value, LwwMap};
use crate::op::{OpKind, OpKindV};
use crate::scalar::{Scalar, ScalarV};
use crate::sequence::{list_live, list_place, list_values};
use crate::stamp::Stamp;
use crate::table::{lemma_entry, lemma_ordered, ordered, seq_keys, Key};
use crate::text::{text_of, Text};
use crate::tree::{latest_in, Tree, TreeV};
use crate::treemove::link_of;
use crate::undo::{
    lemma_snap_parts, slots_by_value, snaps_by_value, steps_view, Snap, SnapV, Step, StepV,
    MAX_SNAPSHOT_DEPTH,
};
use crate::xml::{node_attrs_id, node_children_id, XmlElement, XmlFragment};
use vstd::prelude::*;
use vstd::slice::slice_to_vec;

verus! {

/// The first place of `x` in `s`.
pub open spec fn first_index(s: Seq<Stamp>, x: Stamp) -> Option<nat>
    decreases s.len(),
{
    if s.len() == 0 {
        None
    } else if s[0] == x {
        Some(0)
    } else {
        match first_index(s.skip(1), x) {
            Some(i) => Some(i + 1),
            None => None,
        }
    }
}

pub(crate) proof fn lemma_first_index(s: Seq<Stamp>, x: Stamp, i: int)
    requires
        0 <= i < s.len(),
        s[i] == x,
        forall|j: int| 0 <= j < i ==> s[j] != x,
    ensures
        first_index(s, x) == Some(i as nat),
    decreases i,
{
    if i > 0 {
        let t = s.skip(1);
        assert(t[i - 1] == x);
        assert forall|j: int| 0 <= j < i - 1 implies t[j] != x by {
            assert(t[j] == s[j + 1]);
        }
        assert(s[0] != x);
        lemma_first_index(t, x, i - 1);
    }
}

proof fn lemma_no_index(s: Seq<Stamp>, x: Stamp)
    requires
        !s.contains(x),
    ensures
        first_index(s, x) is None,
    decreases s.len(),
{
    if s.len() > 0 {
        assert(s[0] != x);
        let t = s.skip(1);
        if t.contains(x) {
            let i = t.index_of(x);
            assert(s[i + 1] == x);
        }
        lemma_no_index(t, x);
    }
}

/// The live index of an id in a sequence.
pub open spec fn live_index_of(l: ListV, id: Stamp) -> Option<nat> {
    first_index(list_live(l), id)
}

fn list_index(l: &List, id: Stamp) -> (r: Option<usize>)
    requires
        l.wf(),
    ensures
        match live_index_of(l@, id) {
            Some(n) => r matches Some(m) && m == n,
            None => r is None,
        },
{
    let r = l.live_index(id);
    proof {
        match r {
            Some(i) => lemma_first_index(list_live(l@), id, i as int),
            None => lemma_no_index(list_live(l@), id),
        }
    }
    r
}

/// A count over some clients: increments less decrements.
pub open spec fn count_over(m: Map<ClientId, Tally>, clients: Seq<ClientId>) -> int
    decreases clients.len(),
{
    if clients.len() == 0 {
        0
    } else {
        let t = m[clients.last()];
        count_over(m, clients.drop_last()) + t.inc - t.dec
    }
}

/// What a counter reads.
pub open spec fn counter_total(c: CounterV) -> int {
    count_over(c.tallies, ordered::<ClientId>(c.tallies.dom()))
}

proof fn lemma_total(c: Counter)
    requires
        c.wf(),
    ensures
        c.total() == counter_total(c@),
{
    let e = c.entries.entries@;
    lemma_ordered::<ClientId, Tally>(e);
    lemma_total_upto(c, e.len() as int);
    assert(e.take(e.len() as int) =~= e);
    assert(seq_keys(e).take(e.len() as int) =~= seq_keys(e));
}

proof fn lemma_total_upto(c: Counter, n: int)
    requires
        c.wf(),
        0 <= n <= c.entries.entries@.len(),
    ensures
        tally_sum(c.entries.entries@.take(n)) == count_over(
            c@.tallies,
            seq_keys(c.entries.entries@).take(n),
        ),
    decreases n,
{
    let e = c.entries.entries@;
    if n > 0 {
        lemma_total_upto(c, n - 1);
        assert(e.take(n).drop_last() =~= e.take(n - 1));
        assert(seq_keys(e).take(n).drop_last() =~= seq_keys(e).take(n - 1));
        lemma_entry::<ClientId, Tally>(e, n - 1);
        assert(seq_keys(e).take(n).last() == e[n - 1].0@);
    }
}

// --- capturing ---

/// The scalars among some items.
pub open spec fn scalars_in(items: Seq<ElementV>) -> Seq<ScalarV>
    decreases items.len(),
{
    if items.len() == 0 {
        Seq::empty()
    } else {
        let rest = scalars_in(items.drop_last());
        match items.last() {
            ElementV::Scalar(s) => rest.push(s),
            _ => rest,
        }
    }
}

/// An element captured at most `fuel` levels down; nothing deeper. A counter whose
/// total no `i64` holds is not captured.
pub open spec fn snap_element(t: TreeV, e: ElementV, fuel: nat) -> Option<SnapV>
    decreases fuel, 0nat,
{
    if fuel == 0 {
        None
    } else {
        let f = (fuel - 1) as nat;
        match e {
            ElementV::Scalar(v) => Some(SnapV::Scalar(v)),
            ElementV::Register(r) => Some(SnapV::Register(r.value)),
            ElementV::Counter(id) => if t.counters.dom().contains(id)
                && i64::MIN <= counter_total(t.counters[id]) <= i64::MAX {
                Some(SnapV::Counter(counter_total(t.counters[id]) as i64))
            } else {
                None
            },
            ElementV::LwwMap(id) => if t.maps.dom().contains(id) {
                Some(SnapV::LwwMap(snap_slots(t, map_live(t.maps[id]), f)))
            } else {
                None
            },
            ElementV::List(id) => if t.lists.dom().contains(id) {
                Some(SnapV::List(scalars_in(list_values(t.lists[id]))))
            } else {
                None
            },
            ElementV::Text(id) => if t.texts.dom().contains(id) {
                Some(SnapV::Text(text_of(t.texts[id])))
            } else {
                None
            },
            ElementV::XmlElement(id) => if t.xml_elements.dom().contains(id)
                && t.maps.dom().contains(node_attrs_id(id)) && t.lists.dom().contains(
                node_children_id(id),
            ) {
                Some(
                    SnapV::XmlElement {
                        tag: t.xml_elements[id].tag,
                        attrs: snap_slots(t, map_live(t.maps[node_attrs_id(id)]), f),
                        children: snap_items(t, list_values(t.lists[node_children_id(id)]), f),
                    },
                )
            } else {
                None
            },
            ElementV::XmlFragment(id) => if t.lists.dom().contains(node_children_id(id)) {
                Some(
                    SnapV::XmlFragment {
                        children: snap_items(t, list_values(t.lists[node_children_id(id)]), f),
                    },
                )
            } else {
                None
            },
        }
    }
}

/// Slots captured, but those too deep.
pub open spec fn snap_slots(t: TreeV, slots: Seq<(Seq<u8>, ElementV)>, fuel: nat) -> Seq<
    (Seq<u8>, SnapV),
>
    decreases fuel, slots.len() + 1,
{
    if slots.len() == 0 {
        Seq::empty()
    } else {
        let rest = snap_slots(t, slots.drop_last(), fuel);
        match snap_element(t, slots.last().1, fuel) {
            Some(s) => rest.push((slots.last().0, s)),
            None => rest,
        }
    }
}

/// Items captured, but those too deep.
pub open spec fn snap_items(t: TreeV, items: Seq<ElementV>, fuel: nat) -> Seq<SnapV>
    decreases fuel, items.len() + 1,
{
    if items.len() == 0 {
        Seq::empty()
    } else {
        let rest = snap_items(t, items.drop_last(), fuel);
        match snap_element(t, items.last(), fuel) {
            Some(s) => rest.push(s),
            None => rest,
        }
    }
}

// --- inverses ---

/// An id and where it stands, put in order of where it stands.
pub open spec fn put_pick(picks: Seq<(nat, Stamp)>, p: (nat, Stamp)) -> Seq<(nat, Stamp)>
    decreases picks.len(),
{
    if picks.len() == 0 || picks.last().0 <= p.0 {
        picks.push(p)
    } else {
        put_pick(picks.drop_last(), p).push(picks.last())
    }
}

/// Which of some ids are live and where, in sequence order.
pub open spec fn picks_of(l: ListV, ids: Seq<Stamp>) -> Seq<(nat, Stamp)>
    decreases ids.len(),
{
    if ids.len() == 0 {
        Seq::empty()
    } else {
        let rest = picks_of(l, ids.drop_last());
        match live_index_of(l, ids.last()) {
            Some(i) => put_pick(rest, (i, ids.last())),
            None => rest,
        }
    }
}

/// An inverse that is one op.
pub open spec fn inverse_op(target: ElementId, kind: OpKindV) -> Option<StepV> {
    Some(StepV::Op { target, kind })
}

impl TreeV {
    /// What puts a slot back: whatever it holds now.
    pub open spec fn slot_inverse(self, map: ElementId, key: Seq<u8>) -> Option<StepV> {
        if !self.maps.dom().contains(map) {
            None
        } else {
            inverse_op(
                map,
                match live_value(self.slot(map, key)) {
                    None => OpKindV::MapDelete { key },
                    Some(ElementV::Scalar(value)) => OpKindV::MapSet { key, value },
                    Some(ElementV::Register(r)) => OpKindV::RegisterSet { key, value: r.value },
                    Some(ElementV::Counter(_)) => OpKindV::CounterInc { key, amount: 0 },
                    Some(ElementV::LwwMap(_)) => OpKindV::MapCreate { key },
                    Some(ElementV::List(_)) => OpKindV::ListCreate { key },
                    Some(ElementV::Text(_)) => OpKindV::TextCreate { key },
                    Some(ElementV::XmlElement(id)) => OpKindV::XmlElementCreate {
                        key,
                        tag: if self.xml_elements.dom().contains(id) {
                            self.xml_elements[id].tag
                        } else {
                            Seq::empty()
                        },
                    },
                    Some(ElementV::XmlFragment(_)) => OpKindV::XmlFragmentCreate { key },
                },
            )
        }
    }

    /// Whether a movable node renders: some placement of it is live in a sequence that can
    /// be reached.
    pub open spec fn renders(self, node: ElementId) -> bool {
        self.placements.dom().contains(node) && exists|i: int|
            0 <= i < self.placements[node].len() && self.shows(#[trigger] self.placements[node][i])
    }

    pub open spec fn shows(self, p: Placement) -> bool {
        self.resolvable(p.list) && self.lists.dom().contains(p.list) && list_live(
            self.lists[p.list],
        ).contains(p.stamp)
    }

    /// What revives an item about to be deleted, right before where it sits.
    pub open spec fn list_delete_inverse(self, list: ElementId, id: Stamp) -> Option<StepV> {
        if !self.lists.dom().contains(list) || !self.lists[list].items.dom().contains(id) {
            None
        } else {
            let anchor = Anchor { parent: Some(id), side: Side::Left };
            match self.lists[list].items[id].value {
                ElementV::Scalar(value) => Some(
                    StepV::ReviveItem { list, anchor, value, was: id },
                ),
                e => {
                    let node = e.opt_id()->Some_0;
                    if !self.renders(node) {
                        None
                    } else {
                        match snap_element(self, e, MAX_SNAPSHOT_DEPTH as nat) {
                            Some(s) => Some(
                                StepV::ReviveNode { list, anchor, node: s, was: id, was_node: node },
                            ),
                            None => None,
                        }
                    }
                },
            }
        }
    }

    /// What revives codepoints about to be deleted, before the first of them.
    pub open spec fn text_delete_inverse(self, text: ElementId, ids: Seq<Stamp>) -> Option<StepV> {
        if !self.texts.dom().contains(text) {
            None
        } else {
            let l = self.texts[text];
            let picks = picks_of(l, ids);
            if picks.len() == 0 {
                None
            } else {
                Some(
                    StepV::ReviveRun {
                        text,
                        anchor: Anchor { parent: Some(picks[0].1), side: Side::Left },
                        s: picks.map_values(|p: (nat, Stamp)| text_of(l)[p.0 as int]),
                        was: picks.map_values(|p: (nat, Stamp)| p.1),
                    },
                )
            }
        }
    }

    /// What moves a node back where it renders now.
    pub open spec fn move_inverse(self, node: ElementId) -> Option<StepV> {
        match link_of(self.parents, node) {
            None => None,
            Some(from) => if !self.lists.dom().contains(from) || !self.placements.dom().contains(
                node,
            ) {
                None
            } else {
                match latest_in(self.placements[node], from) {
                    None => None,
                    Some(slot) => match live_index_of(self.lists[from], slot) {
                        None => None,
                        Some(i) => inverse_op(
                            from,
                            OpKindV::XmlMove {
                                node,
                                anchor: list_place(self.lists[from], i, Some(slot)),
                            },
                        ),
                    },
                }
            },
        }
    }

    /// What makes an annotation about to be deleted again, with its payload.
    pub open spec fn ranged_inverse(self, id: ElementId) -> Option<StepV> {
        if !self.ranged.dom().contains(id) || self.ranged[id].tombstone {
            None
        } else {
            let e = self.ranged[id];
            let payload = match e.payload {
                PayloadV::Scalar { value, .. } => Some(SnapV::Scalar(value)),
                PayloadV::Composite { kind } => match kind {
                    ElementKind::LwwMap => snap_element(
                        self,
                        ElementV::LwwMap(spec_payload_id(id, kind)),
                        MAX_SNAPSHOT_DEPTH as nat,
                    ),
                    ElementKind::List => snap_element(
                        self,
                        ElementV::List(spec_payload_id(id, kind)),
                        MAX_SNAPSHOT_DEPTH as nat,
                    ),
                    ElementKind::Text => snap_element(
                        self,
                        ElementV::Text(spec_payload_id(id, kind)),
                        MAX_SNAPSHOT_DEPTH as nat,
                    ),
                    _ => None,
                },
            };
            match payload {
                Some(payload) => Some(
                    StepV::Ranged { start: e.start, end: e.end, name: e.name, payload, was: id },
                ),
                None => None,
            }
        }
    }

    /// What undoes an op that takes one action to undo.
    pub open spec fn single_inverse(
        self,
        target: ElementId,
        kind: OpKindV,
        stamp: Stamp,
    ) -> Option<StepV> {
        match kind {
            OpKindV::RegisterSet { key, .. } => self.slot_inverse(target, key),
            OpKindV::MapSet { key, .. } => self.slot_inverse(target, key),
            OpKindV::MapDelete { key } => self.slot_inverse(target, key),
            OpKindV::MapCreate { key } => self.slot_inverse(target, key),
            OpKindV::ListCreate { key } => self.slot_inverse(target, key),
            OpKindV::TextCreate { key } => self.slot_inverse(target, key),
            OpKindV::XmlElementCreate { key, .. } => self.slot_inverse(target, key),
            OpKindV::XmlFragmentCreate { key } => self.slot_inverse(target, key),
            OpKindV::CounterInc { .. } => None,
            OpKindV::CounterDec { .. } => None,
            OpKindV::ListInsert { .. } => inverse_op(target, OpKindV::ListDelete { id: stamp }),
            OpKindV::XmlInsertChild { .. } => inverse_op(target, OpKindV::ListDelete { id: stamp }),
            OpKindV::ListDelete { id } => self.list_delete_inverse(target, id),
            OpKindV::TextInsert { s, .. } => if s.len() == 0 {
                None
            } else {
                inverse_op(
                    target,
                    OpKindV::TextDelete { ids: crate::text::run_ids(stamp, s.len()) },
                )
            },
            OpKindV::TextDelete { ids } => self.text_delete_inverse(target, ids),
            OpKindV::XmlMove { node, .. } => self.move_inverse(node),
            OpKindV::XmlReveal { .. } => None,
            OpKindV::RangedCreate { .. } => inverse_op(
                target,
                OpKindV::RangedDelete { id: spec_ranged_id(stamp) },
            ),
            OpKindV::RangedSetPayload { id, .. } => if self.ranged.dom().contains(id) {
                match self.ranged[id].payload {
                    PayloadV::Scalar { value, .. } => inverse_op(
                        target,
                        OpKindV::RangedSetPayload { id, payload: value },
                    ),
                    PayloadV::Composite { .. } => None,
                }
            } else {
                None
            },
            OpKindV::RangedDelete { id } => self.ranged_inverse(id),
            OpKindV::AclGrant { .. } => inverse_op(
                target,
                OpKindV::AclRevoke { id: spec_acl_id(stamp) },
            ),
            OpKindV::AclRevoke { id } => if self.acl.dom().contains(id) {
                let e = self.acl[id];
                Some(
                    StepV::Regrant {
                        target,
                        subject: e.subject,
                        grant: e.grant,
                        effect: e.effect,
                        path: e.path,
                        grantor: e.grantor,
                        was: id,
                    },
                )
            } else {
                None
            },
        }
    }

    /// Whether a slot holds the counter its key derives.
    pub open spec fn holds_counter(self, map: ElementId, key: Seq<u8>) -> bool {
        self.maps.dom().contains(map) && (live_value(self.slot(map, key)) matches Some(e)
            && e.opt_id() == Some(derived_id(map, key, ElementKind::Counter)))
    }

    /// What undoes a count: the slot restored if the count takes it, then the count
    /// cancelled.
    pub open spec fn count_inverse(self, map: ElementId, key: Seq<u8>, cancel: OpKindV) -> Seq<
        StepV,
    > {
        let last = StepV::Op { target: map, kind: cancel };
        if self.holds_counter(map, key) {
            seq![last]
        } else {
            match self.slot_inverse(map, key) {
                Some(s) => seq![s, last],
                None => seq![last],
            }
        }
    }

    /// What would put the state back after an op lands.
    pub open spec fn inverse(self, target: ElementId, kind: OpKindV, stamp: Stamp) -> Seq<StepV> {
        match kind {
            OpKindV::CounterInc { key, amount } => self.count_inverse(
                target,
                key,
                OpKindV::CounterDec { key, amount },
            ),
            OpKindV::CounterDec { key, amount } => self.count_inverse(
                target,
                key,
                OpKindV::CounterInc { key, amount },
            ),
            _ => match self.single_inverse(target, kind, stamp) {
                Some(s) => seq![s],
                None => Seq::empty(),
            },
        }
    }
}

/// A captured element, by value.
pub open spec fn opt_snap(s: Option<Snap>) -> Option<SnapV> {
    match s {
        Some(s) => Some(s@),
        None => None,
    }
}

/// An undo action, by value.
pub open spec fn opt_step(s: Option<Step>) -> Option<StepV> {
    match s {
        Some(s) => Some(s@),
        None => None,
    }
}

impl Tree {
    fn snapshot_slots(&self, slots: &Vec<(Vec<u8>, Element)>, fuel: u32) -> (out: Vec<
        (Vec<u8>, Snap),
    >)
        requires
            self.wf(),
        ensures
            slots_by_value(out@) == snap_slots(self@, pairs_by_value(slots@), fuel as nat),
        decreases fuel, 1nat,
    {
        let ghost s = pairs_by_value(slots@);
        let mut out: Vec<(Vec<u8>, Snap)> = Vec::new();
        let mut i: usize = 0;
        proof {
            assert(s.take(0) =~= Seq::empty());
            assert(slots_by_value(out@) =~= Seq::empty());
        }
        while i < slots.len()
            invariant
                self.wf(),
                s == pairs_by_value(slots@),
                i <= slots@.len(),
                slots_by_value(out@) == snap_slots(self@, s.take(i as int), fuel as nat),
            decreases slots@.len() - i,
        {
            proof {
                assert(s.take(i + 1).drop_last() =~= s.take(i as int));
                assert(s.take(i + 1).last() == (slots@[i as int].0@, slots@[i as int].1@));
            }
            let ghost before = slots_by_value(out@);
            let (key, e) = &slots[i];
            if let Some(snap) = self.snapshot(e, fuel) {
                let ghost sv = snap@;
                out.push((slice_to_vec(key.as_slice()), snap));
                proof {
                    assert(slots_by_value(out@) =~= before.push((key@, sv)));
                }
            }
            i += 1;
        }
        proof {
            assert(s.take(i as int) =~= s);
        }
        out
    }

    fn snapshot_children(&self, items: &Vec<Element>, fuel: u32) -> (out: Vec<Snap>)
        requires
            self.wf(),
        ensures
            snaps_by_value(out@) == snap_items(
                self@,
                items@.map_values(|e: Element| e@),
                fuel as nat,
            ),
        decreases fuel, 1nat,
    {
        let ghost s = items@.map_values(|e: Element| e@);
        let mut out: Vec<Snap> = Vec::new();
        let mut i: usize = 0;
        proof {
            assert(s.take(0) =~= Seq::empty());
            assert(snaps_by_value(out@) =~= Seq::empty());
        }
        while i < items.len()
            invariant
                self.wf(),
                s == items@.map_values(|e: Element| e@),
                i <= items@.len(),
                snaps_by_value(out@) == snap_items(self@, s.take(i as int), fuel as nat),
            decreases items@.len() - i,
        {
            proof {
                assert(s.take(i + 1).drop_last() =~= s.take(i as int));
                assert(s.take(i + 1).last() == items@[i as int]@);
            }
            let ghost before = snaps_by_value(out@);
            if let Some(snap) = self.snapshot(&items[i], fuel) {
                let ghost sv = snap@;
                out.push(snap);
                proof {
                    assert(snaps_by_value(out@) =~= before.push(sv));
                }
            }
            i += 1;
        }
        proof {
            assert(s.take(i as int) =~= s);
        }
        out
    }

    /// Capture an element deeply enough to rebuild it; nothing past `fuel` levels.
    fn snapshot(&self, e: &Element, fuel: u32) -> (r: Option<Snap>)
        requires
            self.wf(),
        ensures
            opt_snap(r) == snap_element(self@, e@, fuel as nat),
        decreases fuel, 0nat,
    {
        if fuel == 0 {
            return None;
        }
        let f: u32 = fuel - 1;
        match e {
            Element::Scalar(v) => Some(Snap::Scalar(v.clone())),
            Element::Register(r) => Some(Snap::Register(r.value.clone())),
            Element::Counter(id) => match self.counters.get(*id) {
                Some(c) => {
                    proof {
                        lemma_total(*c);
                    }
                    let n: i128 = c.sum();
                    if n < i64::MIN as i128 || n > i64::MAX as i128 {
                        return None;
                    }
                    Some(Snap::Counter(n as i64))
                },
                None => None,
            },
            Element::LwwMap(id) => match self.maps.get(*id) {
                Some(m) => {
                    let slots = m.entries();
                    proof {
                        m.lemma_live();
                    }
                    let s = Snap::LwwMap(self.snapshot_slots(&slots, f));
                    proof {
                        lemma_snap_parts(s);
                    }
                    Some(s)
                },
                None => None,
            },
            Element::List(id) => match self.lists.get(*id) {
                Some(l) => {
                    let values = l.values();
                    let s = Snap::List(scalars(&values));
                    Some(s)
                },
                None => None,
            },
            Element::Text(id) => match self.texts.get(*id) {
                Some(t) => Some(Snap::Text(t.as_string())),
                None => None,
            },
            Element::XmlElement(id) => match (
                self.xml_elements.get(*id),
                self.maps.get(XmlElement::attrs_id(*id)),
                self.lists.get(XmlElement::children_id(*id)),
            ) {
                (Some(x), Some(m), Some(l)) => {
                    let slots = m.entries();
                    proof {
                        m.lemma_live();
                    }
                    let items = l.values();
                    let s = Snap::XmlElement {
                        tag: slice_to_vec(x.tag.as_slice()),
                        attrs: self.snapshot_slots(&slots, f),
                        children: self.snapshot_children(&items, f),
                    };
                    proof {
                        lemma_snap_parts(s);
                    }
                    Some(s)
                },
                _ => None,
            },
            Element::XmlFragment(id) => match self.lists.get(XmlFragment::children_id(*id)) {
                Some(l) => {
                    let items = l.values();
                    let s = Snap::XmlFragment { children: self.snapshot_children(&items, f) };
                    proof {
                        lemma_snap_parts(s);
                    }
                    Some(s)
                },
                None => None,
            },
        }
    }

    fn slot_inverse(&self, map: ElementId, key: &[u8]) -> (r: Option<Step>)
        requires
            self.wf(),
        ensures
            opt_step(r) == self@.slot_inverse(map, key@),
    {
        let m = match self.maps.get(map) {
            Some(m) => m,
            None => {
                return None;
            },
        };
        let k = slice_to_vec(key);
        let kind = match m.get(key) {
            None => OpKind::MapDelete { key: k },
            Some(Element::Scalar(value)) => OpKind::MapSet { key: k, value },
            Some(Element::Register(r)) => OpKind::RegisterSet { key: k, value: r.value },
            Some(Element::Counter(_)) => OpKind::CounterInc { key: k, amount: 0 },
            Some(Element::LwwMap(_)) => OpKind::MapCreate { key: k },
            Some(Element::List(_)) => OpKind::ListCreate { key: k },
            Some(Element::Text(_)) => OpKind::TextCreate { key: k },
            Some(Element::XmlElement(id)) => {
                let tag = match self.xml_elements.get(id) {
                    Some(x) => slice_to_vec(x.tag.as_slice()),
                    None => {
                        let none: Vec<u8> = Vec::new();
                        proof {
                            assert(none@ =~= Seq::empty());
                        }
                        none
                    },
                };
                OpKind::XmlElementCreate { key: k, tag }
            },
            Some(Element::XmlFragment(_)) => OpKind::XmlFragmentCreate { key: k },
        };
        Some(Step::Op { target: map, kind })
    }

    fn renders(&self, node: ElementId) -> (b: bool)
        requires
            self.wf(),
        ensures
            b == self@.renders(node),
    {
        match self.placements.get(node) {
            None => false,
            Some(places) => {
                let mut i: usize = 0;
                while i < places.at.len()
                    invariant
                        self.wf(),
                        self@.placements.dom().contains(node),
                        places@ == self@.placements[node],
                        i <= places.at@.len(),
                        forall|j: int| 0 <= j < i ==> !self@.shows(#[trigger] places@[j]),
                    decreases places.at@.len() - i,
                {
                    let p = places.at[i];
                    if self.resolvable(p.list) {
                        if let Some(l) = self.lists.get(p.list) {
                            if l.live_index(p.stamp).is_some() {
                                proof {
                                    assert(self@.shows(self@.placements[node][i as int]));
                                }
                                return true;
                            }
                        }
                    }
                    i += 1;
                }
                false
            },
        }
    }

    fn list_delete_inverse(&self, list: ElementId, id: Stamp) -> (r: Option<Step>)
        requires
            self.wf(),
        ensures
            opt_step(r) == self@.list_delete_inverse(list, id),
    {
        let l = match self.lists.get(list) {
            Some(l) => l,
            None => {
                return None;
            },
        };
        let value = match l.node_value(id) {
            Some(v) => v,
            None => {
                return None;
            },
        };
        let anchor = Anchor { parent: Some(id), side: Side::Left };
        match value {
            Element::Scalar(value) => Some(Step::ReviveItem { list, anchor, value, was: id }),
            e => {
                let node = e.id();
                if !self.renders(node) {
                    return None;
                }
                match self.snapshot(&e, MAX_SNAPSHOT_DEPTH) {
                    Some(s) => Some(
                        Step::ReviveNode { list, anchor, node: s, was: id, was_node: node },
                    ),
                    None => None,
                }
            },
        }
    }

    fn text_delete_inverse(&self, text: ElementId, ids: &Vec<Stamp>) -> (r: Option<Step>)
        requires
            self.wf(),
        ensures
            opt_step(r) == self@.text_delete_inverse(text, ids@),
    {
        let t = match self.texts.get(text) {
            Some(t) => t,
            None => {
                return None;
            },
        };
        let picks = pick_live(t, ids);
        if picks.len() == 0 {
            return None;
        }
        let all = t.as_string();
        let mut s = String::new();
        let mut was: Vec<Stamp> = Vec::new();
        let ghost pv = picks_view(picks@);
        let ghost l = t@;
        let ghost fs = |p: (nat, Stamp)| text_of(l)[p.0 as int];
        let ghost fw = |p: (nat, Stamp)| p.1;
        let mut i: usize = 0;
        while i < picks.len()
            invariant
                pv == picks_view(picks@),
                l == t@,
                all@ == text_of(l),
                fs == (|p: (nat, Stamp)| text_of(l)[p.0 as int]),
                fw == (|p: (nat, Stamp)| p.1),
                forall|j: int| 0 <= j < picks@.len() ==> (#[trigger] picks@[j]).0 < text_of(l).len(),
                i <= picks@.len(),
                s@ =~= pv.map_values(fs).take(i as int),
                was@ =~= pv.map_values(fw).take(i as int),
            decreases picks@.len() - i,
        {
            let (at, id) = picks[i];
            proof {
                assert(picks@[i as int].0 < text_of(l).len());
                assert(pv[i as int] == (at as nat, id));
            }
            s.push(all.as_str().get_char(at));
            was.push(id);
            i += 1;
        }
        proof {
            assert(pv.map_values(fs).take(i as int) =~= pv.map_values(fs));
            assert(pv.map_values(fw).take(i as int) =~= pv.map_values(fw));
            assert(pv[0] == (picks@[0].0 as nat, picks@[0].1));
        }
        Some(
            Step::ReviveRun {
                text,
                anchor: Anchor { parent: Some(picks[0].1), side: Side::Left },
                s,
                was,
            },
        )
    }

    fn move_inverse(&self, node: ElementId) -> (r: Option<Step>)
        requires
            self.wf(),
        ensures
            opt_step(r) == self@.move_inverse(node),
    {
        let from = match self.parents.get(&node) {
            Some(p) => *p,
            None => {
                return None;
            },
        };
        match (self.lists.get(from), self.placements.get(node)) {
            (Some(l), Some(places)) => match latest(&places.at, from) {
                None => None,
                Some(slot) => match list_index(l, slot) {
                    None => None,
                    Some(i) => {
                        let anchor = l.place_excluding(i, Some(slot));
                        Some(Step::Op { target: from, kind: OpKind::XmlMove { node, anchor } })
                    },
                },
            },
            _ => None,
        }
    }

    fn ranged_inverse(&self, id: ElementId) -> (r: Option<Step>)
        requires
            self.wf(),
        ensures
            opt_step(r) == self@.ranged_inverse(id),
    {
        let e = match self.ranged.get(id) {
            Some(e) => e,
            None => {
                return None;
            },
        };
        if e.tombstone {
            return None;
        }
        let payload = match &e.payload {
            Payload::Scalar { value, .. } => Some(Snap::Scalar(value.clone())),
            Payload::Composite { kind } => match *kind {
                ElementKind::LwwMap => self.snapshot(
                    &Element::LwwMap(payload_id(id, *kind)),
                    MAX_SNAPSHOT_DEPTH,
                ),
                ElementKind::List => self.snapshot(
                    &Element::List(payload_id(id, *kind)),
                    MAX_SNAPSHOT_DEPTH,
                ),
                ElementKind::Text => self.snapshot(
                    &Element::Text(payload_id(id, *kind)),
                    MAX_SNAPSHOT_DEPTH,
                ),
                _ => None,
            },
        };
        match payload {
            Some(payload) => Some(
                Step::Ranged {
                    start: e.start,
                    end: e.end,
                    name: copy_opt(&e.name),
                    payload,
                    was: id,
                },
            ),
            None => None,
        }
    }

    fn single_inverse(&self, target: ElementId, kind: &OpKind, stamp: Stamp) -> (r: Option<Step>)
        requires
            self.wf(),
            crate::fold::in_range(stamp, kind@),
        ensures
            opt_step(r) == self@.single_inverse(target, kind@, stamp),
    {
        match kind {
            OpKind::RegisterSet { key, .. } => self.slot_inverse(target, key.as_slice()),
            OpKind::MapSet { key, .. } => self.slot_inverse(target, key.as_slice()),
            OpKind::MapDelete { key } => self.slot_inverse(target, key.as_slice()),
            OpKind::MapCreate { key } => self.slot_inverse(target, key.as_slice()),
            OpKind::ListCreate { key } => self.slot_inverse(target, key.as_slice()),
            OpKind::TextCreate { key } => self.slot_inverse(target, key.as_slice()),
            OpKind::XmlElementCreate { key, .. } => self.slot_inverse(target, key.as_slice()),
            OpKind::XmlFragmentCreate { key } => self.slot_inverse(target, key.as_slice()),
            OpKind::CounterInc { .. } => None,
            OpKind::CounterDec { .. } => None,
            OpKind::ListInsert { .. } => Some(
                Step::Op { target, kind: OpKind::ListDelete { id: stamp } },
            ),
            OpKind::XmlInsertChild { .. } => Some(
                Step::Op { target, kind: OpKind::ListDelete { id: stamp } },
            ),
            OpKind::ListDelete { id } => self.list_delete_inverse(target, *id),
            OpKind::TextInsert { s, .. } => {
                let n: usize = s.as_str().unicode_len();
                if n == 0 {
                    return None;
                }
                let ids = run_of(stamp, n);
                Some(Step::Op { target, kind: OpKind::TextDelete { ids } })
            },
            OpKind::TextDelete { ids } => self.text_delete_inverse(target, ids),
            OpKind::XmlMove { node, .. } => self.move_inverse(*node),
            OpKind::XmlReveal { .. } => None,
            OpKind::RangedCreate { .. } => Some(
                Step::Op { target, kind: OpKind::RangedDelete { id: ranged_id(stamp) } },
            ),
            OpKind::RangedSetPayload { id, .. } => match self.ranged.get(*id) {
                Some(e) => match &e.payload {
                    Payload::Scalar { value, .. } => Some(
                        Step::Op {
                            target,
                            kind: OpKind::RangedSetPayload { id: *id, payload: value.clone() },
                        },
                    ),
                    Payload::Composite { .. } => None,
                },
                None => None,
            },
            OpKind::RangedDelete { id } => self.ranged_inverse(*id),
            OpKind::AclGrant { .. } => Some(
                Step::Op { target, kind: OpKind::AclRevoke { id: acl_id(stamp) } },
            ),
            OpKind::AclRevoke { id } => match self.acl.get(*id) {
                Some(e) => Some(
                    Step::Regrant {
                        target,
                        subject: e.subject.clone(),
                        grant: e.grant.clone(),
                        effect: e.effect,
                        path: slice_to_vec(e.path.as_slice()),
                        grantor: e.grantor,
                        was: *id,
                    },
                ),
                None => None,
            },
        }
    }

    fn holds_counter(&self, map: ElementId, key: &[u8]) -> (b: bool)
        requires
            self.wf(),
        ensures
            b == self@.holds_counter(map, key@),
    {
        match self.maps.get(map) {
            Some(m) => match m.get(key) {
                Some(e) => match e.opt_id() {
                    Some(id) => id == ElementId::derive(map, key, ElementKind::Counter),
                    None => false,
                },
                None => false,
            },
            None => false,
        }
    }

    fn count_inverse(&self, map: ElementId, key: &[u8], cancel: OpKind) -> (out: Vec<Step>)
        requires
            self.wf(),
        ensures
            steps_view(out@) == self@.count_inverse(map, key@, cancel@),
    {
        let mut out: Vec<Step> = Vec::new();
        if !self.holds_counter(map, key) {
            if let Some(s) = self.slot_inverse(map, key) {
                out.push(s);
            }
        }
        out.push(Step::Op { target: map, kind: cancel });
        proof {
            assert(steps_view(out@) =~= self@.count_inverse(map, key@, cancel@));
        }
        out
    }

    /// What would put the state back after an op lands.
    pub(crate) fn inverse(&self, target: ElementId, kind: &OpKind, stamp: Stamp) -> (out: Vec<Step>)
        requires
            self.wf(),
            crate::fold::in_range(stamp, kind@),
        ensures
            steps_view(out@) == self@.inverse(target, kind@, stamp),
    {
        match kind {
            OpKind::CounterInc { key, amount } => self.count_inverse(
                target,
                key.as_slice(),
                OpKind::CounterDec { key: slice_to_vec(key.as_slice()), amount: *amount },
            ),
            OpKind::CounterDec { key, amount } => self.count_inverse(
                target,
                key.as_slice(),
                OpKind::CounterInc { key: slice_to_vec(key.as_slice()), amount: *amount },
            ),
            _ => {
                let mut out: Vec<Step> = Vec::new();
                if let Some(s) = self.single_inverse(target, kind, stamp) {
                    out.push(s);
                }
                proof {
                    assert(steps_view(out@) =~= self@.inverse(target, kind@, stamp));
                }
                out
            },
        }
    }
}

/// The scalars among some items.
fn scalars(items: &Vec<Element>) -> (out: Vec<Scalar>)
    ensures
        out@.map_values(|v: Scalar| v@) == scalars_in(items@.map_values(|e: Element| e@)),
{
    let ghost s = items@.map_values(|e: Element| e@);
    let ghost f = |v: Scalar| v@;
    let mut out: Vec<Scalar> = Vec::new();
    let mut i: usize = 0;
    proof {
        assert(s.take(0) =~= Seq::empty());
        assert(out@.map_values(f) =~= Seq::empty());
    }
    while i < items.len()
        invariant
            s == items@.map_values(|e: Element| e@),
            f == (|v: Scalar| v@),
            i <= items@.len(),
            out@.map_values(f) == scalars_in(s.take(i as int)),
        decreases items@.len() - i,
    {
        proof {
            assert(s.take(i + 1).drop_last() =~= s.take(i as int));
            assert(s.take(i + 1).last() == items@[i as int]@);
        }
        let ghost before = out@.map_values(f);
        if let Element::Scalar(v) = &items[i] {
            let c = v.clone();
            let ghost cv = c@;
            out.push(c);
            proof {
                assert(out@.map_values(f) =~= before.push(cv));
            }
        }
        i += 1;
    }
    proof {
        assert(s.take(i as int) =~= s);
    }
    out
}

/// The ids a run of `n` codepoints takes.
pub(crate) fn run_of(stamp: Stamp, n: usize) -> (ids: Vec<Stamp>)
    requires
        stamp.lamport + n <= u64::MAX,
    ensures
        ids@ == crate::text::run_ids(stamp, n as nat),
{
    let mut ids: Vec<Stamp> = Vec::new();
    let mut i: usize = 0;
    while i < n
        invariant
            stamp.lamport + n <= u64::MAX,
            i <= n,
            ids@ =~= crate::text::run_ids(stamp, i as nat),
        decreases n - i,
    {
        ids.push(stamp.run_member(i as u64));
        i += 1;
    }
    ids
}

spec fn picks_view(s: Seq<(usize, Stamp)>) -> Seq<(nat, Stamp)> {
    s.map_values(|p: (usize, Stamp)| (p.0 as nat, p.1))
}

/// Which of some ids are live and where, in sequence order.
fn pick_live(t: &Text, ids: &Vec<Stamp>) -> (out: Vec<(usize, Stamp)>)
    requires
        t.wf(),
    ensures
        picks_view(out@) == picks_of(t@, ids@),
        forall|j: int| 0 <= j < out@.len() ==> (#[trigger] out@[j]).0 < text_of(t@).len(),
{
    let ghost l = t@;
    let mut out: Vec<(usize, Stamp)> = Vec::new();
    let mut i: usize = 0;
    proof {
        assert(ids@.take(0) =~= Seq::empty());
        assert(picks_view(out@) =~= Seq::empty());
    }
    while i < ids.len()
        invariant
            t.wf(),
            l == t@,
            i <= ids@.len(),
            picks_view(out@) == picks_of(l, ids@.take(i as int)),
            forall|j: int| 0 <= j < out@.len() ==> (#[trigger] out@[j]).0 < text_of(l).len(),
        decreases ids@.len() - i,
    {
        proof {
            assert(ids@.take(i + 1).drop_last() =~= ids@.take(i as int));
            assert(ids@.take(i + 1).last() == ids@[i as int]);
        }
        let id = ids[i];
        if let Some(n) = list_index(&t.seq, id) {
            proof {
                lemma_index_bound(list_live(l), id);
            }
            put(&mut out, n, id, Ghost(text_of(l).len()));
        }
        i += 1;
    }
    proof {
        assert(ids@.take(i as int) =~= ids@);
    }
    out
}

proof fn lemma_index_bound(s: Seq<Stamp>, x: Stamp)
    ensures
        first_index(s, x) matches Some(i) ==> i < s.len(),
    decreases s.len(),
{
    if s.len() > 0 && s[0] != x {
        lemma_index_bound(s.skip(1), x);
    }
}

/// Put an id in order of where it stands.
fn put(out: &mut Vec<(usize, Stamp)>, n: usize, id: Stamp, Ghost(bound): Ghost<nat>)
    requires
        n < bound,
        forall|j: int| 0 <= j < old(out)@.len() ==> (#[trigger] old(out)@[j]).0 < bound,
    ensures
        picks_view(final(out)@) == put_pick(picks_view(old(out)@), (n as nat, id)),
        forall|j: int| 0 <= j < final(out)@.len() ==> (#[trigger] final(out)@[j]).0 < bound,
{
    let ghost o = picks_view(out@);
    let ghost p = (n as nat, id);
    let mut at: usize = out.len();
    proof {
        assert(o.take(at as int) =~= o);
        assert(put_pick(o, p) =~= put_pick(o.take(at as int), p) + o.skip(at as int));
    }
    while at > 0 && out[at - 1].0 > n
        invariant
            o == picks_view(out@),
            out@ == old(out)@,
            p == (n as nat, id),
            at <= out@.len(),
            put_pick(o, p) == put_pick(o.take(at as int), p) + o.skip(at as int),
        decreases at,
    {
        proof {
            assert(o.take(at as int).drop_last() =~= o.take(at - 1));
            assert(o.take(at as int).last() == (out@[at - 1].0 as nat, out@[at - 1].1));
            assert(put_pick(o.take(at - 1), p).push(o[at - 1]) + o.skip(at as int) =~= put_pick(
                o.take(at - 1),
                p,
            ) + o.skip(at - 1));
        }
        at -= 1;
    }
    proof {
        if at > 0 {
            assert(o.take(at as int).last() == (out@[at - 1].0 as nat, out@[at - 1].1));
        }
        assert(put_pick(o.take(at as int), p) == o.take(at as int).push(p));
        assert(o.take(at as int).push(p) + o.skip(at as int) =~= o.insert(at as int, p));
    }
    let ghost before = out@;
    out.insert(at, (n, id));
    proof {
        assert(picks_view(out@) =~= o.insert(at as int, p));
        assert forall|j: int| 0 <= j < out@.len() implies (#[trigger] out@[j]).0 < bound by {
            if j < at {
                assert(out@[j] == before[j]);
            } else if j > at {
                assert(out@[j] == before[j - 1]);
            }
        }
    }
}

} // verus!
