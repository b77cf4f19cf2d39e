//! Migrating a snapshot's slots from one schema version to another: the state's image of
//! translating the op stream.
//!
//! Every leaf slot is kept, dropped or renamed by its key. A live container is carried
//! as it is. A deleted container comes back at its old key, where its create would land,
//! and its delete goes to the new key. A counter's tally moves on its own, and two that
//! land on one key add up as their increments would.

use crate::counter::{tallies_plus, Counter, CounterV, Tally};
use crate::clientid::ClientId;
use crate::bytes::bytes_eq;
use crate::doc::{DocV, Document};
use crate::element::{opt_element, Element, ElementV};
use crate::elementid::{derived_id, ElementId, ElementKind};
use crate::identity::root_id;
use crate::map::{live_value, put_evicts, slot_put, LwwMap, MapV, Slot, SlotV};
use crate::migration::{op_key, spec_op_key, steps_up, Migration, OpRewrite, OpRewriteV};
use crate::op::{Op, OpId, OpKind, OpKindV, OpV};
use crate::rebuild::ids_of;
use crate::register::{Register, RegisterV};
use crate::stamp::Stamp;
use crate::table::{ordered, Key};
use crate::tree::{or_insert, Tree, TreeV};
use crate::xml::fragment_node_id;
use crate::bytes::byte_strings;
use vstd::prelude::*;
use vstd::slice::slice_to_vec;

verus! {

/// What a migration does to one leaf slot.
#[derive(PartialEq, Eq, Debug)]
pub enum SlotFate {
    Keep,
    Rename(Vec<u8>),
    Drop,
}

/// A slot's fate, by value.
pub enum SlotFateV {
    Keep,
    Rename(Seq<u8>),
    Drop,
}

impl View for SlotFate {
    type V = SlotFateV;

    open spec fn view(&self) -> SlotFateV {
        match *self {
            SlotFate::Keep => SlotFateV::Keep,
            SlotFate::Rename(to) => SlotFateV::Rename(to@),
            SlotFate::Drop => SlotFateV::Drop,
        }
    }
}

/// What decides each slot's fate, by the map that owns it and its key.
pub trait SlotRule {
    spec fn fate_of(&self, map: ElementId, key: Seq<u8>) -> SlotFateV;

    fn fate(&self, map: ElementId, key: &[u8]) -> (f: SlotFate)
        ensures
            f@ == self.fate_of(map, key@),
    ;
}

/// The op that stands for a slot when a migration is asked what becomes of its key.
pub open spec fn probe(key: Seq<u8>) -> OpV {
    OpV {
        id: OpId { client: ClientId { bits: 0 }, seq: 0 },
        stamp: Stamp { lamport: 0, client: ClientId { bits: 0 }, offset: 0 },
        target: crate::identity::root_element(),
        kind: OpKindV::MapDelete { key },
        tx: None,
        zone: None,
    }
}

/// What became of a key under a rewrite.
pub open spec fn fate_under(key: Seq<u8>, r: OpRewriteV) -> SlotFateV {
    match r {
        OpRewriteV::Drop => SlotFateV::Drop,
        OpRewriteV::Keep(op) => match spec_op_key(op.kind) {
            Some(k) => if k == key {
                SlotFateV::Keep
            } else {
                SlotFateV::Rename(k)
            },
            None => SlotFateV::Keep,
        },
    }
}

impl SlotRule for Migration {
    /// A slot goes where the ops on its key go.
    open spec fn fate_of(&self, map: ElementId, key: Seq<u8>) -> SlotFateV {
        fate_under(key, steps_up(self@.steps, probe(key)))
    }

    fn fate(&self, map: ElementId, key: &[u8]) -> (f: SlotFate) {
        let nobody = ClientId { bits: 0 };
        let op = Op::new(
            OpId { client: nobody, seq: 0 },
            Stamp { lamport: 0, client: nobody, offset: 0 },
            root_id(),
            OpKind::MapDelete { key: slice_to_vec(key) },
        );
        match self.rewrite_up(&op) {
            OpRewrite::Drop => SlotFate::Drop,
            OpRewrite::Keep(moved) => match op_key(&moved) {
                Some(k) => if bytes_eq(k, key) {
                    SlotFate::Keep
                } else {
                    SlotFate::Rename(slice_to_vec(k))
                },
                None => SlotFate::Keep,
            },
        }
    }
}

// --- what moves ---

/// A slot on its way to its new key.
pub struct SlotMoveV {
    pub stamp: Stamp,
    pub value: Option<ElementV>,
}

/// A renamed key's slot and tally on their way to the new key.
pub struct LeafMoveV {
    pub to: Seq<u8>,
    pub counter: Option<Map<ClientId, Tally>>,
    pub slot: Option<SlotMoveV>,
}

/// A deleted container on its way back to its key, and its delete on its way to the new
/// one.
pub struct ResurrectV {
    pub old_key: Seq<u8>,
    pub container: ElementV,
    pub create_stamp: Stamp,
    pub tombstone_at: Option<(Seq<u8>, Stamp)>,
}

/// One map half migrated: what is left in it, and what is on its way.
pub struct MigV {
    pub tree: TreeV,
    pub moved: Seq<LeafMoveV>,
    pub back: Seq<ResurrectV>,
    pub changed: bool,
}

/// The create a tombstone retains.
pub open spec fn deleted_create(slot: Option<SlotV>) -> Option<(Stamp, ElementKind)> {
    match slot {
        Some(s) => if s.value is None {
            match s.container {
                Some(c) => Some((c.stamp, c.kind)),
                None => None,
            }
        } else {
            None
        },
        None => None,
    }
}

impl TreeV {
    /// The container of a kind that a key names, if it was ever created.
    pub open spec fn container_at(self, map: ElementId, key: Seq<u8>, kind: ElementKind) -> Option<
        ElementV,
    > {
        let id = derived_id(map, key, kind);
        match kind {
            ElementKind::LwwMap => if self.maps.dom().contains(id) {
                Some(ElementV::LwwMap(id))
            } else {
                None
            },
            ElementKind::List => if self.lists.dom().contains(id) {
                Some(ElementV::List(id))
            } else {
                None
            },
            ElementKind::Text => if self.texts.dom().contains(id) {
                Some(ElementV::Text(id))
            } else {
                None
            },
            ElementKind::XmlFragment => if self.xml_fragments.dom().contains(
                fragment_node_id(map, key),
            ) {
                Some(ElementV::XmlFragment(fragment_node_id(map, key)))
            } else {
                None
            },
            _ => None,
        }
    }

    /// Whether a key ever named a container.
    pub open spec fn has_container_at(self, map: ElementId, key: Seq<u8>) -> bool {
        self.container_at(map, key, ElementKind::LwwMap) is Some || self.container_at(
            map,
            key,
            ElementKind::List,
        ) is Some || self.container_at(map, key, ElementKind::Text) is Some || self.container_at(
            map,
            key,
            ElementKind::XmlFragment,
        ) is Some
    }

    /// The deleted container a key's tombstone is over, with the create it retains.
    pub open spec fn buried_at(self, map: ElementId, key: Seq<u8>) -> Option<(Stamp, ElementV)> {
        match deleted_create(self.slot(map, key)) {
            Some((stamp, kind)) => match self.container_at(map, key, kind) {
                Some(c) => Some((stamp, c)),
                None => None,
            },
            None => None,
        }
    }

    /// Whether a slot is carried as it is: it holds a container, or a tombstone where one
    /// was.
    pub open spec fn is_carried(self, map: ElementId, key: Seq<u8>) -> bool {
        match self.slot(map, key) {
            Some(s) => match s.value {
                Some(v) => v.is_container(),
                None => self.has_container_at(map, key),
            },
            None => false,
        }
    }

    pub open spec fn without_slot(self, map: ElementId, key: Seq<u8>) -> TreeV {
        TreeV {
            maps: self.maps.insert(
                map,
                MapV { slots: self.maps[map].slots.remove(key), ..self.maps[map] },
            ),
            ..self
        }
    }

    pub open spec fn without_counter(self, id: ElementId) -> TreeV {
        TreeV { counters: self.counters.remove(id), ..self }
    }

    /// The tally a key's counter retains: the one registered for it, else the one its
    /// slot still holds.
    pub open spec fn tally_at(self, map: ElementId, key: Seq<u8>, take_slot: bool) -> Option<
        Map<ClientId, Tally>,
    > {
        let id = derived_id(map, key, ElementKind::Counter);
        if self.counters.dom().contains(id) {
            Some(self.counters[id].tallies)
        } else {
            match live_value(self.slot(map, key)) {
                Some(ElementV::Counter(c)) => if take_slot && self.counters.dom().contains(c) {
                    Some(self.counters[c].tallies)
                } else {
                    None
                },
                _ => None,
            }
        }
    }

    /// A migrated slot put at its key: the later stamp wins, and what it pushes out is
    /// displaced.
    pub open spec fn put_slot(
        self,
        map: ElementId,
        key: Seq<u8>,
        stamp: Stamp,
        value: Option<ElementV>,
    ) -> TreeV {
        let s = self.slot(map, key);
        self.with_slot(map, key, slot_put(s, value, stamp)).with_evicted(
            put_evicts(s, value, stamp),
        )
    }

    /// A retained tally added to the counter the new key names.
    pub open spec fn with_tally(
        self,
        map: ElementId,
        to: Seq<u8>,
        tallies: Map<ClientId, Tally>,
    ) -> TreeV {
        let id = derived_id(map, to, ElementKind::Counter);
        let counters = or_insert(
            self.counters,
            id,
            CounterV { id, tallies: Map::empty(), displaced: false },
        );
        TreeV {
            counters: counters.insert(
                id,
                CounterV { tallies: tallies_plus(counters[id].tallies, tallies), ..counters[id] },
            ),
            ..self
        }
    }

    /// A renamed key's slot and tally landed at the new key. A counter's slot points at
    /// the counter there; a register takes the id the new key gives it.
    #[verifier::opaque]
    pub open spec fn with_landed(self, map: ElementId, m: LeafMoveV) -> TreeV {
        let t = match m.counter {
            Some(tallies) => self.with_tally(map, m.to, tallies),
            None => self,
        };
        match m.slot {
            None => t,
            Some(s) => t.put_slot(
                map,
                m.to,
                s.stamp,
                match s.value {
                    Some(ElementV::Counter(_)) => if m.counter is Some {
                        Some(ElementV::Counter(derived_id(map, m.to, ElementKind::Counter)))
                    } else {
                        None
                    },
                    Some(ElementV::Register(r)) => Some(
                        ElementV::Register(
                            RegisterV { id: derived_id(map, m.to, ElementKind::Register), ..r },
                        ),
                    ),
                    v => v,
                },
            ),
        }
    }

    /// A deleted container back at its key, unless something later took it, and its
    /// delete at the new key.
    #[verifier::opaque]
    pub open spec fn with_resurrected(self, map: ElementId, r: ResurrectV) -> TreeV {
        let t = self.put_slot(map, r.old_key, r.create_stamp, Some(r.container));
        let won = live_value(t.slot(map, r.old_key)) matches Some(v) && v.same_handle(r.container);
        let u = t.with_displaced(r.container, !won);
        match r.tombstone_at {
            Some((key, stamp)) => u.put_slot(map, key, stamp, None),
            None => u,
        }
    }
}

impl MigV {
    /// After one key's fate is carried out: what moves is taken out.
    pub open spec fn with_fate(self, map: ElementId, key: Seq<u8>, fate: SlotFateV) -> MigV {
        match fate {
            SlotFateV::Keep => self,
            SlotFateV::Drop => self.with_drop(map, key),
            SlotFateV::Rename(to) => self.with_rename(map, key, to),
        }
    }

    #[verifier::opaque]
    pub open spec fn with_drop(self, map: ElementId, key: Seq<u8>) -> MigV {
        let t = self.tree;
        let id = derived_id(map, key, ElementKind::Counter);
        match t.buried_at(map, key) {
            Some((create_stamp, container)) => MigV {
                tree: t.without_slot(map, key).without_counter(id),
                back: self.back.push(
                    ResurrectV { old_key: key, container, create_stamp, tombstone_at: None },
                ),
                changed: true,
                ..self
            },
            None => MigV {
                tree: if t.is_carried(map, key) {
                    t.without_counter(id)
                } else {
                    t.without_counter(id).without_slot(map, key)
                },
                changed: self.changed || t.counters.dom().contains(id) || !t.is_carried(map, key),
                ..self
            },
        }
    }

    #[verifier::opaque]
    pub open spec fn with_rename(self, map: ElementId, key: Seq<u8>, to: Seq<u8>) -> MigV {
        let t = self.tree;
        let id = derived_id(map, key, ElementKind::Counter);
        match t.buried_at(map, key) {
            Some((create_stamp, container)) => MigV {
                tree: t.without_slot(map, key).without_counter(id),
                moved: match t.tally_at(map, key, false) {
                    Some(tallies) => self.moved.push(
                        LeafMoveV { to, counter: Some(tallies), slot: None },
                    ),
                    None => self.moved,
                },
                back: self.back.push(
                    ResurrectV {
                        old_key: key,
                        container,
                        create_stamp,
                        tombstone_at: Some((to, t.slot(map, key)->Some_0.stamp)),
                    },
                ),
                changed: true,
            },
            None => {
                let carried = t.is_carried(map, key);
                let counter = t.tally_at(map, key, !carried);
                let slot = if carried {
                    None
                } else {
                    Some(
                        SlotMoveV {
                            stamp: t.slot(map, key)->Some_0.stamp,
                            value: t.slot(map, key)->Some_0.value,
                        },
                    )
                };
                MigV {
                    tree: if carried {
                        t.without_counter(id)
                    } else {
                        t.without_slot(map, key).without_counter(id)
                    },
                    moved: if slot is Some || counter is Some {
                        self.moved.push(LeafMoveV { to, counter, slot })
                    } else {
                        self.moved
                    },
                    changed: self.changed || slot is Some || counter is Some,
                    ..self
                }
            },
        }
    }

    /// After the fates of some keys are carried out.
    pub open spec fn with_fates<R: SlotRule>(
        self,
        rule: &R,
        map: ElementId,
        keys: Seq<Seq<u8>>,
    ) -> MigV
        decreases keys.len(),
    {
        if keys.len() == 0 {
            self
        } else {
            let m = self.with_fates(rule, map, keys.drop_last());
            m.with_fate(map, keys.last(), rule.fate_of(map, keys.last()))
        }
    }
}

impl TreeV {
    pub open spec fn landed_all(self, map: ElementId, moved: Seq<LeafMoveV>) -> TreeV
        decreases moved.len(),
    {
        if moved.len() == 0 {
            self
        } else {
            self.landed_all(map, moved.drop_last()).with_landed(map, moved.last())
        }
    }

    pub open spec fn resurrected_all(self, map: ElementId, back: Seq<ResurrectV>) -> TreeV
        decreases back.len(),
    {
        if back.len() == 0 {
            self
        } else {
            self.resurrected_all(map, back.drop_last()).with_resurrected(map, back.last())
        }
    }

    /// One map taken apart: every mover is out before any lands.
    pub open spec fn taken_apart<R: SlotRule>(self, rule: &R, map: ElementId) -> MigV {
        (MigV { tree: self, moved: Seq::empty(), back: Seq::empty(), changed: false }).with_fates(
            rule,
            map,
            ordered::<Vec<u8>>(self.maps[map].slots.dom()),
        )
    }

    /// One map migrated.
    pub open spec fn map_migrated<R: SlotRule>(self, rule: &R, map: ElementId) -> TreeV {
        let m = self.taken_apart(rule, map);
        m.tree.landed_all(map, m.moved).resurrected_all(map, m.back)
    }

    /// Some maps migrated in turn, and whether any changed.
    pub open spec fn maps_migrated<R: SlotRule>(self, rule: &R, maps: Seq<ElementId>) -> (
        TreeV,
        bool,
    )
        decreases maps.len(),
    {
        if maps.len() == 0 {
            (self, false)
        } else {
            let (t, changed) = self.maps_migrated(rule, maps.drop_last());
            (
                t.map_migrated(rule, maps.last()),
                changed || t.taken_apart(rule, maps.last()).changed,
            )
        }
    }
}

impl DocV {
    /// With every map's slots migrated. What was recorded for undo names slots that are
    /// gone, so it goes too.
    pub open spec fn migrated<R: SlotRule>(self, rule: &R) -> DocV {
        let (t, changed) = self.tree.maps_migrated(
            rule,
            ordered::<ElementId>(self.tree.maps.dom()),
        );
        DocV {
            tree: t,
            history: if changed {
                self.history.forgotten()
            } else {
                self.history
            },
            ..self
        }
    }

    pub open spec fn migration_changes<R: SlotRule>(self, rule: &R) -> bool {
        self.tree.maps_migrated(rule, ordered::<ElementId>(self.tree.maps.dom())).1
    }
}

// --- migrating ---

struct SlotMove {
    stamp: Stamp,
    value: Option<Element>,
}

struct LeafMove {
    to: Vec<u8>,
    counter: Option<Counter>,
    slot: Option<SlotMove>,
}

struct Resurrect {
    old_key: Vec<u8>,
    container: Element,
    create_stamp: Stamp,
    tombstone_at: Option<(Vec<u8>, Stamp)>,
}

impl View for SlotMove {
    type V = SlotMoveV;

    closed spec fn view(&self) -> SlotMoveV {
        SlotMoveV { stamp: self.stamp, value: opt_element(self.value) }
    }
}

impl View for LeafMove {
    type V = LeafMoveV;

    closed spec fn view(&self) -> LeafMoveV {
        LeafMoveV {
            to: self.to@,
            counter: match self.counter {
                Some(c) => Some(c@.tallies),
                None => None,
            },
            slot: match self.slot {
                Some(s) => Some(s@),
                None => None,
            },
        }
    }
}

impl View for Resurrect {
    type V = ResurrectV;

    closed spec fn view(&self) -> ResurrectV {
        ResurrectV {
            old_key: self.old_key@,
            container: self.container@,
            create_stamp: self.create_stamp,
            tombstone_at: match self.tombstone_at {
                Some((k, s)) => Some((k@, s)),
                None => None,
            },
        }
    }
}

spec fn moves_view(s: Seq<LeafMove>) -> Seq<LeafMoveV> {
    s.map_values(|m: LeafMove| m@)
}

spec fn back_view(s: Seq<Resurrect>) -> Seq<ResurrectV> {
    s.map_values(|r: Resurrect| r@)
}

/// One map half migrated.
struct Mig {
    moved: Vec<LeafMove>,
    back: Vec<Resurrect>,
    changed: bool,
}

spec fn mig_view(t: Tree, m: Mig) -> MigV {
    MigV { tree: t@, moved: moves_view(m.moved@), back: back_view(m.back@), changed: m.changed }
}

/// Whether every tally on its way is well formed.
spec fn mig_sound(m: Mig) -> bool {
    forall|i: int|
        0 <= i < m.moved@.len() ==> ((#[trigger] m.moved@[i]).counter matches Some(c) ==> c.wf())
}

impl Tree {
    /// The container of a kind that a key names.
    fn container_handle(&self, map: ElementId, key: &[u8], kind: ElementKind) -> (r: Option<
        Element,
    >)
        requires
            self.wf(),
        ensures
            opt_element(r) == self@.container_at(map, key@, kind),
    {
        let id = ElementId::derive(map, key, kind);
        match kind {
            ElementKind::LwwMap => if self.maps.contains(id) {
                Some(Element::LwwMap(id))
            } else {
                None
            },
            ElementKind::List => if self.lists.contains(id) {
                Some(Element::List(id))
            } else {
                None
            },
            ElementKind::Text => if self.texts.contains(id) {
                Some(Element::Text(id))
            } else {
                None
            },
            ElementKind::XmlFragment => if self.xml_fragments.contains(id) {
                Some(Element::XmlFragment(id))
            } else {
                None
            },
            _ => None,
        }
    }

    fn holds_any_container(&self, map: ElementId, key: &[u8]) -> (b: bool)
        requires
            self.wf(),
        ensures
            b == self@.has_container_at(map, key@),
    {
        self.container_handle(map, key, ElementKind::LwwMap).is_some() || self.container_handle(
            map,
            key,
            ElementKind::List,
        ).is_some() || self.container_handle(map, key, ElementKind::Text).is_some()
            || self.container_handle(map, key, ElementKind::XmlFragment).is_some()
    }

    fn buried(&self, map: ElementId, key: &[u8]) -> (r: Option<(Stamp, Element)>)
        requires
            self.wf(),
            self@.maps.dom().contains(map),
        ensures
            match r {
                Some((s, e)) => self@.buried_at(map, key@) == Some((s, e@)),
                None => self@.buried_at(map, key@) is None,
            },
    {
        let deleted = match self.maps.get(map) {
            Some(m) => m.slot_deleted_container(key),
            None => None,
        };
        match deleted {
            Some((stamp, kind)) => match self.container_handle(map, key, kind) {
                Some(c) => Some((stamp, c)),
                None => None,
            },
            None => None,
        }
    }

    fn carried(&self, map: ElementId, key: &[u8]) -> (b: bool)
        requires
            self.wf(),
            self@.maps.dom().contains(map),
        ensures
            b == self@.is_carried(map, key@),
    {
        match self.maps.get(map) {
            Some(m) => m.slot_is_live_container(key) || (m.slot_is_tombstone(key)
                && self.holds_any_container(map, key)),
            None => false,
        }
    }

    fn take_slot(&mut self, map: ElementId, key: &[u8]) -> (r: Option<Slot>)
        requires
            old(self).wf(),
            old(self)@.maps.dom().contains(map),
        ensures
            final(self).wf(),
            final(self)@ == old(self)@.without_slot(map, key@),
            match r {
                Some(s) => old(self)@.slot(map, key@) == Some(s@),
                None => old(self)@.slot(map, key@) is None,
            },
            final(self).counters == old(self).counters,
    {
        let mut out: Option<Slot> = None;
        match self.maps.get_mut(map) {
            Some(m) => {
                out = m.take_slot(key);
            },
            None => {},
        }
        proof {
            assert(self@ =~= old(self)@.without_slot(map, key@));
        }
        out
    }

    fn take_counter(&mut self, id: ElementId) -> (r: Option<Counter>)
        requires
            old(self).wf(),
        ensures
            final(self).wf(),
            final(self)@ == old(self)@.without_counter(id),
            match r {
                Some(c) => c.wf() && old(self)@.counters.dom().contains(id) && c@
                    == old(self)@.counters[id],
                None => !old(self)@.counters.dom().contains(id),
            },
    {
        let r = self.counters.remove(id);
        proof {
            assert(self@ =~= old(self)@.without_counter(id));
        }
        r
    }

    fn put_slot(&mut self, map: ElementId, key: &[u8], stamp: Stamp, value: Option<Element>)
        requires
            old(self).wf(),
            old(self)@.maps.dom().contains(map),
        ensures
            final(self).wf(),
            final(self)@ == old(self)@.put_slot(map, key@, stamp, opt_element(value)),
            final(self)@.maps.dom() == old(self)@.maps.dom(),
    {
        reveal(TreeV::with_evicted);
        reveal(TreeV::with_displaced);
        let ghost s = self@.slot(map, key@);
        let ghost v = opt_element(value);
        let mut out: Option<Element> = None;
        match self.maps.get_mut(map) {
            Some(m) => {
                out = m.put_slot_lww(key, stamp, value);
            },
            None => {},
        }
        proof {
            assert(self@ =~= old(self)@.with_slot(map, key@, slot_put(s, v, stamp)));
        }
        if let Some(e) = &out {
            self.set_displaced(e, true);
        }
        proof {
            assert(self@.maps.dom() =~= old(self)@.maps.dom());
        }
    }

    /// Carry out a key's drop.
    fn drop_key(&mut self, m: &mut Mig, map: ElementId, key: &[u8])
        requires
            old(self).wf(),
            old(self)@.maps.dom().contains(map),
            mig_sound(*old(m)),
        ensures
            final(self).wf(),
            final(self)@.maps.dom() == old(self)@.maps.dom(),
            mig_sound(*final(m)),
            mig_view(*final(self), *final(m)) == mig_view(*old(self), *old(m)).with_drop(map, key@),
    {
        reveal(MigV::with_drop);
        let id = ElementId::derive(map, key, ElementKind::Counter);
        match self.buried(map, key) {
            Some((create_stamp, container)) => {
                let _ = self.take_slot(map, key);
                let _ = self.take_counter(id);
                m.changed = true;
                let ghost b = m.back@;
                let r = Resurrect {
                    old_key: slice_to_vec(key),
                    container,
                    create_stamp,
                    tombstone_at: None,
                };
                let ghost rv = r@;
                m.back.push(r);
                proof {
                    assert(back_view(m.back@) =~= back_view(b).push(rv));
                }
            },
            None => {
                let carry = self.carried(map, key);
                if self.take_counter(id).is_some() {
                    m.changed = true;
                }
                if !carry {
                    let _ = self.take_slot(map, key);
                    m.changed = true;
                }
            },
        }
        proof {
            assert(self@.maps.dom() =~= old(self)@.maps.dom());
        }
    }

    /// Carry out a key's rename: what moves is taken out.
    fn rename_key(&mut self, m: &mut Mig, map: ElementId, key: &[u8], to: Vec<u8>)
        requires
            old(self).wf(),
            old(self)@.maps.dom().contains(map),
            old(self)@.slot(map, key@) is Some,
            mig_sound(*old(m)),
        ensures
            final(self).wf(),
            final(self)@.maps.dom() == old(self)@.maps.dom(),
            mig_sound(*final(m)),
            mig_view(*final(self), *final(m)) == mig_view(*old(self), *old(m)).with_rename(
                map,
                key@,
                to@,
            ),
    {
        reveal(MigV::with_rename);
        let id = ElementId::derive(map, key, ElementKind::Counter);
        let ghost t = self@;
        match self.buried(map, key) {
            Some((create_stamp, container)) => {
                let slot = self.take_slot(map, key);
                let counter = self.take_counter(id);
                m.changed = true;
                let ghost mv = m.moved@;
                let had = counter.is_some();
                if had {
                    let lm = LeafMove { to: slice_to_vec(to.as_slice()), counter, slot: None };
                    let ghost lv = lm@;
                    m.moved.push(lm);
                    proof {
                        assert(moves_view(m.moved@) =~= moves_view(mv).push(lv));
                    }
                }
                let tombstone_at = match slot {
                    Some(s) => Some((to, s.stamp)),
                    None => None,
                };
                let ghost b = m.back@;
                let r = Resurrect {
                    old_key: slice_to_vec(key),
                    container,
                    create_stamp,
                    tombstone_at,
                };
                let ghost rv = r@;
                m.back.push(r);
                proof {
                    assert(back_view(m.back@) =~= back_view(b).push(rv));
                    assert(self@.maps.dom() =~= old(self)@.maps.dom());
                }
            },
            None => {
                let carry = self.carried(map, key);
                let slot = if carry {
                    None
                } else {
                    match self.take_slot(map, key) {
                        Some(s) => Some(SlotMove { stamp: s.stamp, value: s.value }),
                        None => None,
                    }
                };
                let counter = match self.take_counter(id) {
                    Some(c) => Some(c),
                    None => match &slot {
                        Some(s) => match &s.value {
                            Some(Element::Counter(c)) => match self.counters.get(*c) {
                                Some(x) => Some(x.deep_clone()),
                                None => None,
                            },
                            _ => None,
                        },
                        None => None,
                    },
                };
                proof {
                    assert(self@ =~= if carry {
                        t.without_counter(id)
                    } else {
                        t.without_slot(map, key@).without_counter(id)
                    });
                    assert(self@.maps.dom() =~= old(self)@.maps.dom());
                }
                if slot.is_some() || counter.is_some() {
                    m.changed = true;
                    let ghost mv = m.moved@;
                    let lm = LeafMove { to, counter, slot };
                    let ghost lv = lm@;
                    m.moved.push(lm);
                    proof {
                        assert(moves_view(m.moved@) =~= moves_view(mv).push(lv));
                    }
                }
            },
        }
    }

    /// Land a renamed key's slot and tally at the new key.
    fn land(&mut self, map: ElementId, m: LeafMove)
        requires
            old(self).wf(),
            old(self)@.maps.dom().contains(map),
            m.counter matches Some(c) ==> c.wf(),
        ensures
            final(self).wf(),
            final(self)@.maps.dom() == old(self)@.maps.dom(),
            final(self)@ == old(self)@.with_landed(map, m@),
    {
        reveal(TreeV::with_landed);
        let LeafMove { to, counter, slot } = m;
        let rehomed = counter.is_some();
        if let Some(c) = &counter {
            self.add_tally(map, to.as_slice(), c);
        }
        if let Some(s) = slot {
            let value = match s.value {
                Some(Element::Counter(_)) => if rehomed {
                    Some(
                        Element::Counter(
                            ElementId::derive(map, to.as_slice(), ElementKind::Counter),
                        ),
                    )
                } else {
                    None
                },
                Some(Element::Register(r)) => Some(
                    Element::Register(
                        Register {
                            id: ElementId::derive(map, to.as_slice(), ElementKind::Register),
                            value: r.value,
                            stamp: r.stamp,
                        },
                    ),
                ),
                v => v,
            };
            self.put_slot(map, to.as_slice(), s.stamp, value);
        }
    }

    fn add_tally(&mut self, map: ElementId, to: &[u8], c: &Counter)
        requires
            old(self).wf(),
            old(self)@.maps.dom().contains(map),
            c.wf(),
        ensures
            final(self).wf(),
            final(self)@.maps.dom() == old(self)@.maps.dom(),
            final(self)@ == old(self)@.with_tally(map, to@, c@.tallies),
    {
        let id = ElementId::derive(map, to, ElementKind::Counter);
        if !self.counters.contains(id) {
            self.counters.insert(id, Counter::new(id));
        }
        match self.counters.get_mut(id) {
            Some(x) => x.count_on(c),
            None => {},
        }
        proof {
            assert(self@ =~= old(self)@.with_tally(map, to@, c@.tallies));
        }
    }

    /// Bring a deleted container back at its key, and its delete to the new one.
    fn resurrect(&mut self, map: ElementId, r: Resurrect)
        requires
            old(self).wf(),
            old(self)@.maps.dom().contains(map),
        ensures
            final(self).wf(),
            final(self)@.maps.dom() == old(self)@.maps.dom(),
            final(self)@ == old(self)@.with_resurrected(map, r@),
    {
        reveal(TreeV::with_resurrected);
        reveal(TreeV::with_displaced);
        let Resurrect { old_key, container, create_stamp, tombstone_at } = r;
        self.put_slot(map, old_key.as_slice(), create_stamp, Some(container.clone()));
        let won = match self.maps.get(map) {
            Some(m) => match m.get(old_key.as_slice()) {
                Some(v) => v.same_handle(&container),
                None => false,
            },
            None => false,
        };
        self.set_displaced(&container, !won);
        proof {
            assert(self@.maps.dom() =~= old(self)@.maps.dom());
        }
        if let Some((key, stamp)) = tombstone_at {
            self.put_slot(map, key.as_slice(), stamp, None);
        }
    }

    /// Carry out the fates of a map's keys.
    fn take_apart<R: SlotRule>(&mut self, rule: &R, map: ElementId) -> (m: Mig)
        requires
            old(self).wf(),
            old(self)@.maps.dom().contains(map),
        ensures
            final(self).wf(),
            final(self)@.maps.dom() == old(self)@.maps.dom(),
            mig_sound(m),
            mig_view(*final(self), m) == old(self)@.taken_apart(rule, map),
    {
        let keys: Vec<Vec<u8>> = match self.maps.get(map) {
            Some(x) => {
                proof {
                    x.lemma_live();
                }
                x.slot_keys()
            },
            None => Vec::new(),
        };
        let ghost ks = byte_strings(keys@);
        let ghost t0 = self@;
        let mut m = Mig { moved: Vec::new(), back: Vec::new(), changed: false };
        let ghost start = mig_view(*self, m);
        let mut i: usize = 0;
        proof {
            assert(ks.take(0) =~= Seq::empty());
            assert(start.moved =~= Seq::empty());
            assert(start.back =~= Seq::empty());
            lemma_keys_in(t0, map, ks);
        }
        while i < keys.len()
            invariant
                self.wf(),
                ks == byte_strings(keys@),
                ks.no_duplicates(),
                i <= keys@.len(),
                t0 == old(self)@,
                t0.maps.dom().contains(map),
                self@.maps.dom() == t0.maps.dom(),
                mig_sound(m),
                forall|j: int|
                    i <= j < ks.len() ==> self@.maps[map].slots.dom().contains(#[trigger] ks[j]),
                mig_view(*self, m) == start.with_fates(rule, map, ks.take(i as int)),
            decreases keys@.len() - i,
        {
            let key = slice_to_vec(keys[i].as_slice());
            proof {
                assert(ks.take(i + 1).drop_last() =~= ks.take(i as int));
                assert(ks.take(i + 1).last() == key@);
                assert(ks[i as int] == key@);
                assert(self@.maps[map].slots.dom().contains(ks[i as int]));
            }
            let ghost before = self@;
            match rule.fate(map, key.as_slice()) {
                SlotFate::Keep => {},
                SlotFate::Drop => {
                    proof {
                        reveal(MigV::with_drop);
                    }
                    self.drop_key(&mut m, map, key.as_slice());
                },
                SlotFate::Rename(to) => {
                    proof {
                        reveal(MigV::with_rename);
                    }
                    self.rename_key(&mut m, map, key.as_slice(), to);
                },
            }
            proof {
                assert forall|j: int| i + 1 <= j < ks.len()
                    implies self@.maps[map].slots.dom().contains(
                    #[trigger] ks[j],
                ) by {
                    assert(ks[j] != ks[i as int]);
                    assert(before.maps[map].slots.dom().contains(ks[j]));
                }
            }
            i += 1;
        }
        proof {
            assert(ks.take(i as int) =~= ks);
        }
        m
    }

    /// Migrate one map, telling whether anything in it changed.
    fn migrate_map<R: SlotRule>(&mut self, rule: &R, map: ElementId) -> (changed: bool)
        requires
            old(self).wf(),
            old(self)@.maps.dom().contains(map),
        ensures
            final(self).wf(),
            final(self)@.maps.dom() == old(self)@.maps.dom(),
            changed == old(self)@.taken_apart(rule, map).changed,
            final(self)@ == old(self)@.map_migrated(rule, map),
    {
        let m = self.take_apart(rule, map);
        let Mig { moved, back, changed } = m;
        let ghost ms = moves_view(moved@);
        let ghost bs = back_view(back@);
        let ghost t0 = self@;
        let mut moved = moved;
        let mut back = back;
        let ghost mut i: int = 0;
        proof {
            assert(ms.take(0) =~= Seq::empty());
            assert(ms.skip(0) =~= ms);
        }
        while moved.len() > 0
            invariant
                self.wf(),
                self@.maps.dom() == t0.maps.dom(),
                t0.maps.dom().contains(map),
                0 <= i <= ms.len(),
                moves_view(moved@) == ms.skip(i),
                forall|k: int|
                    0 <= k < moved@.len() ==> ((#[trigger] moved@[k]).counter matches Some(c)
                        ==> c.wf()),
                self@ == t0.landed_all(map, ms.take(i)),
            decreases moved@.len(),
        {
            let ghost before = moved@;
            proof {
                assert(moves_view(before).len() == before.len());
                assert(before[0].counter matches Some(c) ==> c.wf());
            }
            let x = moved.remove(0);
            proof {
                assert(moves_view(before)[0] == x@);
                assert(ms.skip(i)[0] == ms[i]);
                assert(ms.take(i + 1).drop_last() =~= ms.take(i));
                assert(ms.take(i + 1).last() == x@);
                assert forall|k: int| 0 <= k < moved@.len() implies #[trigger] moves_view(moved@)[k]
                    == ms.skip(i + 1)[k] by {
                    assert(moved@[k] == before[k + 1]);
                    assert(moves_view(before)[k + 1] == ms.skip(i)[k + 1]);
                }
                assert(moves_view(moved@) =~= ms.skip(i + 1));
                assert forall|k: int| 0 <= k < moved@.len() implies (
                (#[trigger] moved@[k]).counter matches Some(c) ==> c.wf()) by {
                    assert(moved@[k] == before[k + 1]);
                }
                i = i + 1;
            }
            self.land(map, x);
        }
        proof {
            assert(ms.skip(i).len() == 0);
            assert(ms.take(i) =~= ms);
        }
        let ghost t1 = self@;
        let ghost mut j: int = 0;
        proof {
            assert(bs.take(0) =~= Seq::empty());
            assert(bs.skip(0) =~= bs);
        }
        while back.len() > 0
            invariant
                self.wf(),
                self@.maps.dom() == t0.maps.dom(),
                t0.maps.dom().contains(map),
                0 <= j <= bs.len(),
                back_view(back@) == bs.skip(j),
                self@ == t1.resurrected_all(map, bs.take(j)),
            decreases back@.len(),
        {
            let ghost before = back@;
            proof {
                assert(back_view(before).len() == before.len());
            }
            let x = back.remove(0);
            proof {
                assert(back_view(before)[0] == x@);
                assert(bs.skip(j)[0] == bs[j]);
                assert(bs.take(j + 1).drop_last() =~= bs.take(j));
                assert(bs.take(j + 1).last() == x@);
                assert forall|k: int| 0 <= k < back@.len() implies #[trigger] back_view(back@)[k]
                    == bs.skip(j + 1)[k] by {
                    assert(back@[k] == before[k + 1]);
                    assert(back_view(before)[k + 1] == bs.skip(j)[k + 1]);
                }
                assert(back_view(back@) =~= bs.skip(j + 1));
                j = j + 1;
            }
            self.resurrect(map, x);
        }
        proof {
            assert(bs.skip(j).len() == 0);
            assert(bs.take(j) =~= bs);
        }
        changed
    }
}

proof fn lemma_keys_in(t: TreeV, map: ElementId, ks: Seq<Seq<u8>>)
    requires
        ks == ordered::<Vec<u8>>(t.maps[map].slots.dom()),
        crate::table::rises::<Vec<u8>>(ks) && ks.to_set() == t.maps[map].slots.dom(),
    ensures
        ks.no_duplicates(),
        forall|j: int| 0 <= j < ks.len() ==> t.maps[map].slots.dom().contains(#[trigger] ks[j]),
{
    assert forall|i: int, j: int| 0 <= i < ks.len() && 0 <= j < ks.len() && i != j implies ks[i]
        != ks[j] by {
        <Vec<u8> as Key>::before_total(ks[i], ks[j]);
        if i < j {
            assert(<Vec<u8> as Key>::before(ks[i], ks[j]));
        } else {
            assert(<Vec<u8> as Key>::before(ks[j], ks[i]));
        }
    }
    assert forall|j: int| 0 <= j < ks.len() implies t.maps[map].slots.dom().contains(
        #[trigger] ks[j],
    ) by {
        assert(ks.to_set().contains(ks[j]));
    }
}

impl Document {
    /// Migrate every slot by a rule on its key, telling whether any changed.
    pub fn migrate_leaf_slots<R: SlotRule>(&mut self, rule: &R) -> (changed: bool)
        requires
            old(self).wf(),
        ensures
            final(self).wf(),
            final(self)@ == old(self)@.migrated(rule),
            changed == old(self)@.migration_changes(rule),
    {
        self.migrate_leaf_slots_scoped(rule)
    }

    /// Migrate every slot by a rule on the map that owns it and its key, telling whether
    /// any changed.
    pub fn migrate_leaf_slots_scoped<R: SlotRule>(&mut self, rule: &R) -> (changed: bool)
        requires
            old(self).wf(),
        ensures
            final(self).wf(),
            final(self)@ == old(self)@.migrated(rule),
            changed == old(self)@.migration_changes(rule),
    {
        let ids = ids_of(&self.tree.maps.table);
        let ghost t0 = self.tree@;
        proof {
            assert(t0.maps.dom() =~= self.tree.maps.table@.dom());
            assert(ids@.take(0) =~= Seq::empty());
        }
        let mut changed = false;
        let mut i: usize = 0;
        while i < ids.len()
            invariant
                self.wf(),
                i <= ids@.len(),
                ids@.to_set() == t0.maps.dom(),
                t0 == old(self)@.tree,
                self.tree@.maps.dom() == t0.maps.dom(),
                (self.tree@, changed) == t0.maps_migrated(rule, ids@.take(i as int)),
                self@ == (DocV { tree: self.tree@, ..old(self)@ }),
            decreases ids@.len() - i,
        {
            proof {
                assert(ids@.take(i + 1).drop_last() =~= ids@.take(i as int));
                assert(ids@.to_set().contains(ids@[i as int]));
            }
            if self.tree.migrate_map(rule, ids[i]) {
                changed = true;
            }
            proof {
                assert(self@ =~= (DocV { tree: self.tree@, ..old(self)@ }));
            }
            i += 1;
        }
        proof {
            assert(ids@.take(i as int) =~= ids@);
        }
        if changed {
            self.history.forget();
        }
        proof {
            assert(self@ =~= old(self)@.migrated(rule));
        }
        changed
    }
}

// --- laws ---

proof fn lemma_kept<R: SlotRule>(m: MigV, rule: &R, map: ElementId, keys: Seq<Seq<u8>>)
    requires
        forall|k: Seq<u8>| rule.fate_of(map, k) is Keep,
    ensures
        m.with_fates(rule, map, keys) == m,
    decreases keys.len(),
{
    if keys.len() > 0 {
        lemma_kept(m, rule, map, keys.drop_last());
    }
}

proof fn lemma_maps_kept<R: SlotRule>(t: TreeV, rule: &R, maps: Seq<ElementId>)
    requires
        forall|m: ElementId, k: Seq<u8>| rule.fate_of(m, k) is Keep,
    ensures
        t.maps_migrated(rule, maps) == (t, false),
    decreases maps.len(),
{
    if maps.len() > 0 {
        lemma_maps_kept(t, rule, maps.drop_last());
        lemma_kept(
            MigV { tree: t, moved: Seq::empty(), back: Seq::empty(), changed: false },
            rule,
            maps.last(),
            ordered::<Vec<u8>>(t.maps[maps.last()].slots.dom()),
        );
    }
}

/// A migration that keeps every slot changes nothing.
pub proof fn law_keeping_all_changes_nothing<R: SlotRule>(d: DocV, rule: &R)
    requires
        forall|m: ElementId, k: Seq<u8>| rule.fate_of(m, k) is Keep,
    ensures
        d.migrated(rule) == d,
        !d.migration_changes(rule),
{
    lemma_maps_kept(d.tree, rule, ordered::<ElementId>(d.tree.maps.dom()));
}

} // verus!
