//! LwwMap: a last-writer-wins map with tombstones, keyed on raw bytes.
//!
//! A slot is live or a tombstone. A winning write or delete evicts the live value it
//! replaces; a merge keeps the later of two slots. Whatever wins, a key retains the
//! highest-ranked container create it has seen.

use crate::bytes::byte_strings;
use crate::element::{copy_opt_element, opt_element, spec_handle, Element, ElementV};
use crate::elementid::{derived_id, ElementId, ElementKind};
use crate::register::{register_set, Register, RegisterV};
use crate::scalar::{Scalar, ScalarV};
use crate::stamp::{stamp_lt, Stamp};
use crate::table::{lemma_entry, lemma_ordered, lemma_take, ordered, seq_keys, seq_map, sorted, Key, Table};
use vstd::prelude::*;
use vstd::slice::slice_to_vec;

verus! {

/// The identity of a container create: the stamp it landed at and which kind it was.
#[derive(Clone, Copy, PartialEq, Eq, Debug, Structural)]
pub struct ContainerCreate {
    pub stamp: Stamp,
    pub kind: ElementKind,
}

/// Whether create `a` ranks below `b`: by stamp, then by kind.
pub open spec fn create_lt(a: ContainerCreate, b: ContainerCreate) -> bool {
    stamp_lt(a.stamp, b.stamp) || (a.stamp == b.stamp && a.kind.spec_tag() < b.kind.spec_tag())
}

/// The create a key retains once it has seen both: the higher-ranked one.
pub open spec fn spec_higher(
    a: Option<ContainerCreate>,
    b: Option<ContainerCreate>,
) -> Option<ContainerCreate> {
    match (a, b) {
        (Some(x), Some(y)) => Some(
            if create_lt(x, y) {
                y
            } else {
                x
            },
        ),
        (x, None) => x,
        (None, y) => y,
    }
}

/// The create identity that installing `value` at `stamp` contributes: a container of
/// any kind records one, a leaf none.
pub open spec fn spec_create_of(value: Option<ElementV>, stamp: Stamp) -> Option<ContainerCreate> {
    match value {
        Some(v) => if v.is_container() {
            Some(ContainerCreate { stamp, kind: v.kind() })
        } else {
            None
        },
        None => None,
    }
}

/// One slot: the stamp that last wrote it, its value (none for a tombstone), and the
/// container create its key retains.
#[derive(PartialEq, Eq, Debug)]
pub struct Slot {
    pub stamp: Stamp,
    pub value: Option<Element>,
    pub container: Option<ContainerCreate>,
}

/// A slot as a value.
pub struct SlotV {
    pub stamp: Stamp,
    pub value: Option<ElementV>,
    pub container: Option<ContainerCreate>,
}

impl View for Slot {
    type V = SlotV;

    open spec fn view(&self) -> SlotV {
        SlotV { stamp: self.stamp, value: opt_element(self.value), container: self.container }
    }
}

impl Clone for Slot {
    fn clone(&self) -> (r: Self)
        ensures
            r@ == self@,
    {
        Slot {
            stamp: self.stamp,
            value: copy_opt_element(&self.value),
            container: self.container,
        }
    }
}

/// A map: its id, its slots, and whether it has lost its own slot.
pub struct LwwMap {
    pub id: ElementId,
    pub slots: Table<Vec<u8>, Slot>,
    pub displaced: bool,
}

/// A map as a value.
#[verifier::ext_equal]
pub struct MapV {
    pub id: ElementId,
    pub slots: Map<Seq<u8>, SlotV>,
    pub displaced: bool,
}

/// Slots by value.
pub open spec fn slots_view(m: Map<Seq<u8>, Slot>) -> Map<Seq<u8>, SlotV> {
    m.map_values(|s: Slot| s@)
}

impl View for LwwMap {
    type V = MapV;

    open spec fn view(&self) -> MapV {
        MapV { id: self.id, slots: slots_view(self.slots@), displaced: self.displaced }
    }
}

proof fn lemma_slots_insert(m: Map<Seq<u8>, Slot>, k: Seq<u8>, s: Slot)
    ensures
        slots_view(m.insert(k, s)) == slots_view(m).insert(k, s@),
{
    assert(slots_view(m.insert(k, s)) =~= slots_view(m).insert(k, s@));
}

proof fn lemma_slots_remove(m: Map<Seq<u8>, Slot>, k: Seq<u8>)
    ensures
        slots_view(m.remove(k)) == slots_view(m).remove(k),
{
    assert(slots_view(m.remove(k)) =~= slots_view(m).remove(k));
}

/// The slot at `key`, if the key has one.
pub open spec fn slot_at(slots: Map<Seq<u8>, SlotV>, key: Seq<u8>) -> Option<SlotV> {
    if slots.dom().contains(key) {
        Some(slots[key])
    } else {
        None
    }
}

/// The create a slot retains.
pub open spec fn retained(slot: Option<SlotV>) -> Option<ContainerCreate> {
    match slot {
        Some(s) => s.container,
        None => None,
    }
}

/// The live value of a slot.
pub open spec fn live_value(slot: Option<SlotV>) -> Option<ElementV> {
    match slot {
        Some(s) => s.value,
        None => None,
    }
}

/// Whether a write at `stamp` wins the slot: it is empty, or was written earlier.
pub open spec fn slot_wins(slot: Option<SlotV>, stamp: Stamp) -> bool {
    slot matches Some(s) ==> stamp_lt(s.stamp, stamp)
}

/// Whether the slot already holds the handle `value`.
pub open spec fn holds_handle(slot: Option<SlotV>, value: ElementV) -> bool {
    live_value(slot) matches Some(v) && v.same_handle(value)
}

/// The slot after `value` is set at `stamp`. A create is retained whether or not it
/// wins; a losing write changes nothing else, and a handle set again where it already
/// is only advances the stamp.
pub open spec fn slot_set(slot: Option<SlotV>, value: ElementV, stamp: Stamp) -> SlotV {
    let container = spec_higher(retained(slot), spec_create_of(Some(value), stamp));
    if !slot_wins(slot, stamp) {
        SlotV { container, ..slot->Some_0 }
    } else if holds_handle(slot, value) {
        SlotV { stamp, container, ..slot->Some_0 }
    } else {
        SlotV { stamp, value: Some(value), container }
    }
}

/// What setting `value` at `stamp` evicts from the slot.
pub open spec fn set_evicts(slot: Option<SlotV>, value: ElementV, stamp: Stamp) -> Option<ElementV> {
    if slot_wins(slot, stamp) && !holds_handle(slot, value) {
        live_value(slot)
    } else {
        None
    }
}

/// The slot after a delete at `stamp`: a tombstone that retains the key's create, if
/// the delete wins.
pub open spec fn slot_delete(slot: Option<SlotV>, stamp: Stamp) -> SlotV {
    if slot_wins(slot, stamp) {
        SlotV { stamp, value: None, container: retained(slot) }
    } else {
        slot->Some_0
    }
}

/// The slot after a migrated slot lands on it: the later stamp keeps the slot.
pub open spec fn slot_put(slot: Option<SlotV>, value: Option<ElementV>, stamp: Stamp) -> SlotV {
    let container = spec_higher(retained(slot), spec_create_of(value, stamp));
    if slot_wins(slot, stamp) {
        SlotV { stamp, value, container }
    } else {
        SlotV { container, ..slot->Some_0 }
    }
}

/// What a migrated slot evicts.
pub open spec fn put_evicts(
    slot: Option<SlotV>,
    value: Option<ElementV>,
    stamp: Stamp,
) -> Option<ElementV> {
    if slot_wins(slot, stamp) && !(value matches Some(v) && holds_handle(slot, v)) {
        live_value(slot)
    } else {
        None
    }
}

/// The slot after a register write at `stamp`: a live register there takes the write
/// if it is later; otherwise a fresh register is installed if the write wins the slot.
pub open spec fn slot_set_register(
    slot: Option<SlotV>,
    id: ElementId,
    value: ScalarV,
    stamp: Stamp,
) -> SlotV {
    match live_value(slot) {
        Some(ElementV::Register(r)) => SlotV {
            stamp: if slot_wins(slot, stamp) {
                stamp
            } else {
                slot->Some_0.stamp
            },
            value: Some(ElementV::Register(register_set(r, value, stamp))),
            container: slot->Some_0.container,
        },
        _ => slot_set(slot, ElementV::Register(RegisterV { id, value, stamp }), stamp),
    }
}

/// What a register write evicts: nothing from a slot that already holds a register.
pub open spec fn register_evicts(slot: Option<SlotV>, stamp: Stamp) -> Option<ElementV> {
    match live_value(slot) {
        Some(ElementV::Register(_)) => None,
        v => if slot_wins(slot, stamp) {
            v
        } else {
            None
        },
    }
}

/// Whether two live values are one logical element: composites or registers of one
/// kind and id.
pub open spec fn same_element(a: Option<ElementV>, b: Option<ElementV>) -> bool {
    match (a, b) {
        (Some(x), Some(y)) => !(x is Scalar) && x.kind() == y.kind() && x.opt_id() == y.opt_id(),
        _ => false,
    }
}

/// One element seen on both sides: a register takes the later write, and a handle is
/// the same handle.
pub open spec fn element_join(a: ElementV, b: ElementV) -> ElementV {
    match (a, b) {
        (ElementV::Register(x), ElementV::Register(y)) => ElementV::Register(
            register_set(x, y.value, y.stamp),
        ),
        _ => a,
    }
}

/// The join of another replica's slot into this one's.
pub open spec fn slot_join(a: Option<SlotV>, b: SlotV) -> SlotV {
    let container = spec_higher(retained(a), b.container);
    if same_element(live_value(a), b.value) {
        SlotV {
            stamp: if stamp_lt(a->Some_0.stamp, b.stamp) {
                b.stamp
            } else {
                a->Some_0.stamp
            },
            value: Some(element_join(a->Some_0.value->Some_0, b.value->Some_0)),
            container,
        }
    } else if slot_wins(a, b.stamp) {
        SlotV { container, ..b }
    } else {
        SlotV { container, ..a->Some_0 }
    }
}

/// The join of another replica's slots into this one's, key by key.
pub open spec fn slots_join(
    a: Map<Seq<u8>, SlotV>,
    b: Map<Seq<u8>, SlotV>,
) -> Map<Seq<u8>, SlotV> {
    Map::new(
        |k: Seq<u8>| a.dom().contains(k) || b.dom().contains(k),
        |k: Seq<u8>|
            if b.dom().contains(k) {
                slot_join(slot_at(a, k), b[k])
            } else {
                a[k]
            },
    )
}

// --- operations ---

/// The create a key retains once it has seen both.
pub fn higher(a: Option<ContainerCreate>, b: Option<ContainerCreate>) -> (r: Option<ContainerCreate>)
    ensures
        r == spec_higher(a, b),
{
    match (a, b) {
        (Some(x), Some(y)) => {
            if y.stamp.gt(&x.stamp) || (x.stamp == y.stamp && x.kind.tag() < y.kind.tag()) {
                Some(y)
            } else {
                Some(x)
            }
        },
        (x, None) => x,
        (None, y) => y,
    }
}

/// The create identity installing `value` at `stamp` contributes.
fn create_of(value: &Element, stamp: Stamp) -> (r: Option<ContainerCreate>)
    ensures
        r == spec_create_of(Some(value@), stamp),
{
    if value.is_container() {
        Some(ContainerCreate { stamp, kind: value.kind() })
    } else {
        None
    }
}

impl LwwMap {
    /// The slots are kept in ascending key order.
    pub open spec fn wf(&self) -> bool {
        self.slots.wf()
    }

    /// The slot at `key`, by value.
    pub open spec fn slot(&self, key: Seq<u8>) -> Option<SlotV> {
        slot_at(self@.slots, key)
    }

    pub fn new(id: ElementId) -> (m: Self)
        ensures
            m.wf(),
            m@ == (MapV { id, slots: Map::empty(), displaced: false }),
    {
        let m = LwwMap { id, slots: Table::new(), displaced: false };
        proof {
            assert(m@.slots =~= Map::empty());
        }
        m
    }

    pub fn id(&self) -> (id: ElementId)
        ensures
            id == self@.id,
    {
        self.id
    }

    fn get_slot(&self, key: &[u8]) -> (r: Option<&Slot>)
        requires
            self.wf(),
        ensures
            match r {
                Some(s) => self.slot(key@) == Some(s@),
                None => self.slot(key@) is None,
            },
    {
        self.slots.get(&slice_to_vec(key))
    }

    fn put_slot(&mut self, key: &[u8], slot: Slot)
        requires
            old(self).wf(),
        ensures
            final(self).wf(),
            final(self)@ == (MapV { slots: old(self)@.slots.insert(key@, slot@), ..old(self)@ }),
    {
        let ghost m = self.slots@;
        self.slots.insert(slice_to_vec(key), slot);
        proof {
            lemma_slots_insert(m, key@, slot);
        }
    }

    /// Whether `key` has a slot, live or tombstoned.
    pub(crate) fn has_slot(&self, key: &[u8]) -> (b: bool)
        requires
            self.wf(),
        ensures
            b == self@.slots.dom().contains(key@),
    {
        self.get_slot(key).is_some()
    }

    /// Every slot key, live or tombstoned, in ascending order.
    pub(crate) fn slot_keys(&self) -> (keys: Vec<Vec<u8>>)
        requires
            self.wf(),
        ensures
            byte_strings(keys@) == seq_keys(self.slots.entries@),
    {
        let ghost e = self.slots.entries@;
        let mut keys: Vec<Vec<u8>> = Vec::new();
        let mut i: usize = 0;
        while i < self.slots.entries.len()
            invariant
                e == self.slots.entries@,
                i <= e.len(),
                byte_strings(keys@) =~= seq_keys(e).take(i as int),
            decreases e.len() - i,
        {
            let ghost before = byte_strings(keys@);
            let key = slice_to_vec(self.slots.entries[i].0.as_slice());
            keys.push(key);
            proof {
                assert(byte_strings(keys@) =~= before.push(key@));
            }
            i += 1;
        }
        proof {
            assert(seq_keys(e).take(i as int) =~= seq_keys(e));
        }
        keys
    }

    /// Whether `key` holds a live container of any kind.
    pub(crate) fn slot_is_live_container(&self, key: &[u8]) -> (b: bool)
        requires
            self.wf(),
        ensures
            b == (live_value(self.slot(key@)) matches Some(v) && v.is_container()),
    {
        match self.get_slot(key) {
            Some(s) => match &s.value {
                Some(v) => v.is_container(),
                None => false,
            },
            None => false,
        }
    }

    /// Whether `key`'s slot is a tombstone.
    pub(crate) fn slot_is_tombstone(&self, key: &[u8]) -> (b: bool)
        requires
            self.wf(),
        ensures
            b == (self.slot(key@) matches Some(s) && s.value is None),
    {
        match self.get_slot(key) {
            Some(s) => s.value.is_none(),
            None => false,
        }
    }

    /// The retained create of the deleted container at `key`, if the slot is a tombstone
    /// over one.
    pub fn slot_deleted_container(&self, key: &[u8]) -> (r: Option<(Stamp, ElementKind)>)
        requires
            self.wf(),
        ensures
            r == match self.slot(key@) {
                Some(s) => if s.value is None {
                    match s.container {
                        Some(c) => Some((c.stamp, c.kind)),
                        None => None,
                    }
                } else {
                    None
                },
                None => None::<(Stamp, ElementKind)>,
            },
    {
        match self.get_slot(key) {
            Some(s) => {
                if s.value.is_some() {
                    return None;
                }
                match s.container {
                    Some(c) => Some((c.stamp, c.kind)),
                    None => None,
                }
            },
            None => None,
        }
    }

    /// Remove the slot at `key`.
    pub(crate) fn take_slot(&mut self, key: &[u8]) -> (r: Option<Slot>)
        requires
            old(self).wf(),
        ensures
            final(self).wf(),
            final(self)@ == (MapV { slots: old(self)@.slots.remove(key@), ..old(self)@ }),
            match r {
                Some(s) => old(self).slot(key@) == Some(s@),
                None => old(self).slot(key@) is None,
            },
    {
        let ghost m = self.slots@;
        proof {
            lemma_slots_remove(m, key@);
        }
        self.slots.remove(&slice_to_vec(key))
    }

    /// Install a migrated slot at `key`, keeping the later stamp if one is already
    /// there; the destination's own retained create outlives whatever lands on it.
    /// Returns the live value this evicts.
    pub(crate) fn put_slot_lww(
        &mut self,
        key: &[u8],
        stamp: Stamp,
        value: Option<Element>,
    ) -> (evicted: Option<Element>)
        requires
            old(self).wf(),
        ensures
            final(self).wf(),
            final(self)@ == (MapV {
                slots: old(self)@.slots.insert(
                    key@,
                    slot_put(old(self).slot(key@), opt_element(value), stamp),
                ),
                ..old(self)@
            }),
            opt_element(evicted) == put_evicts(old(self).slot(key@), opt_element(value), stamp),
    {
        let created = match &value {
            Some(v) => create_of(v, stamp),
            None => None,
        };
        match self.get_slot(key) {
            None => {
                self.put_slot(key, Slot { stamp, value, container: created });
                None
            },
            Some(prior) => {
                let container = higher(prior.container, created);
                if !stamp.gt(&prior.stamp) {
                    let slot = Slot {
                        stamp: prior.stamp,
                        value: copy_opt_element(&prior.value),
                        container,
                    };
                    self.put_slot(key, slot);
                    return None;
                }
                let kept = match (&prior.value, &value) {
                    (Some(old), Some(new)) => old.same_handle(new),
                    _ => false,
                };
                let evicted = if kept {
                    None
                } else {
                    copy_opt_element(&prior.value)
                };
                self.put_slot(key, Slot { stamp, value, container });
                evicted
            },
        }
    }

    /// Install a slot decoded from a snapshot, reporting whether it displaced a prior
    /// entry. A live container is its own create, so a lesser one spelled out beside it
    /// gives way.
    pub(crate) fn insert_decoded(
        &mut self,
        key: &[u8],
        stamp: Stamp,
        value: Option<Element>,
        container: Option<ContainerCreate>,
    ) -> (repeated: bool)
        requires
            old(self).wf(),
        ensures
            final(self).wf(),
            final(self)@ == (MapV {
                slots: old(self)@.slots.insert(
                    key@,
                    SlotV {
                        stamp,
                        value: opt_element(value),
                        container: spec_higher(
                            container,
                            spec_create_of(opt_element(value), stamp),
                        ),
                    },
                ),
                ..old(self)@
            }),
            repeated == (old(self).slot(key@) is Some),
    {
        let created = match &value {
            Some(v) => create_of(v, stamp),
            None => None,
        };
        let repeated = self.get_slot(key).is_some();
        self.put_slot(key, Slot { stamp, value, container: higher(container, created) });
        repeated
    }

    /// How many slots are live.
    pub fn size(&self) -> (n: usize)
        requires
            self.wf(),
        ensures
            n == live_entries(self.slots.entries@).len(),
    {
        let ghost e = self.slots.entries@;
        let mut n: usize = 0;
        let mut i: usize = 0;
        while i < self.slots.entries.len()
            invariant
                e == self.slots.entries@,
                i <= e.len(),
                n <= i,
                n == live_entries(e.take(i as int)).len(),
            decreases e.len() - i,
        {
            proof {
                lemma_live_entries_step(e, i as int);
            }
            if self.slots.entries[i].1.value.is_some() {
                n += 1;
            }
            i += 1;
        }
        proof {
            assert(e.take(i as int) =~= e);
        }
        n
    }

    /// Live slots, in ascending key order.
    pub fn entries(&self) -> (out: Vec<(Vec<u8>, Element)>)
        requires
            self.wf(),
        ensures
            pairs_by_value(out@) == live_entries(self.slots.entries@),
    {
        let ghost e = self.slots.entries@;
        let mut out: Vec<(Vec<u8>, Element)> = Vec::new();
        let mut i: usize = 0;
        while i < self.slots.entries.len()
            invariant
                e == self.slots.entries@,
                i <= e.len(),
                pairs_by_value(out@) =~= live_entries(e.take(i as int)),
            decreases e.len() - i,
        {
            proof {
                lemma_live_entries_step(e, i as int);
            }
            let ghost before = pairs_by_value(out@);
            let (key, slot) = &self.slots.entries[i];
            match &slot.value {
                Some(v) => {
                    let pair = (slice_to_vec(key.as_slice()), v.clone());
                    let ghost pv = (pair.0@, pair.1@);
                    out.push(pair);
                    proof {
                        assert(pairs_by_value(out@) =~= before.push(pv));
                    }
                },
                None => {},
            }
            i += 1;
        }
        proof {
            assert(e.take(i as int) =~= e);
        }
        out
    }

    /// The live slot keys, in ascending order.
    pub fn keys(&self) -> (keys: Vec<Vec<u8>>)
        requires
            self.wf(),
        ensures
            byte_strings(keys@) == live_entries(self.slots.entries@).map_values(
                |p: (Seq<u8>, ElementV)| p.0,
            ),
    {
        let entries = self.entries();
        let ghost pv = pairs_by_value(entries@);
        let ghost want = pv.map_values(|p: (Seq<u8>, ElementV)| p.0);
        let mut keys: Vec<Vec<u8>> = Vec::new();
        let mut i: usize = 0;
        while i < entries.len()
            invariant
                i <= entries@.len(),
                pv == pairs_by_value(entries@),
                want == pv.map_values(|p: (Seq<u8>, ElementV)| p.0),
                byte_strings(keys@) =~= want.take(i as int),
            decreases entries@.len() - i,
        {
            let ghost before = byte_strings(keys@);
            let key = slice_to_vec(entries[i].0.as_slice());
            keys.push(key);
            proof {
                assert(byte_strings(keys@) =~= before.push(key@));
                assert(want[i as int] == key@);
            }
            i += 1;
        }
        proof {
            assert(want.take(i as int) =~= want);
        }
        keys
    }

    /// The live value at `key`.
    pub fn get(&self, key: &[u8]) -> (r: Option<Element>)
        requires
            self.wf(),
        ensures
            opt_element(r) == live_value(self.slot(key@)),
    {
        match self.get_slot(key) {
            Some(s) => copy_opt_element(&s.value),
            None => None,
        }
    }

    /// Set `value` at `key`; the later write wins. Returns the live value this evicts.
    pub fn set(&mut self, key: &[u8], value: Element, stamp: Stamp) -> (evicted: Option<Element>)
        requires
            old(self).wf(),
        ensures
            final(self).wf(),
            final(self)@ == (MapV {
                slots: old(self)@.slots.insert(
                    key@,
                    slot_set(old(self).slot(key@), value@, stamp),
                ),
                ..old(self)@
            }),
            opt_element(evicted) == set_evicts(old(self).slot(key@), value@, stamp),
    {
        let created = create_of(&value, stamp);
        match self.get_slot(key) {
            None => {
                self.put_slot(key, Slot { stamp, value: Some(value), container: created });
                None
            },
            Some(prior) => {
                let container = higher(prior.container, created);
                let loses = !stamp.gt(&prior.stamp);
                let reinstalls = match &prior.value {
                    Some(old) => old.same_handle(&value),
                    None => false,
                };
                if loses || reinstalls {
                    let slot = Slot {
                        stamp: if loses {
                            prior.stamp
                        } else {
                            stamp
                        },
                        value: copy_opt_element(&prior.value),
                        container,
                    };
                    self.put_slot(key, slot);
                    return None;
                }
                let evicted = copy_opt_element(&prior.value);
                self.put_slot(key, Slot { stamp, value: Some(value), container });
                evicted
            },
        }
    }

    /// Tombstone the slot at `key`; the later write wins. Returns the live value this
    /// evicts.
    pub fn delete(&mut self, key: &[u8], stamp: Stamp) -> (evicted: Option<Element>)
        requires
            old(self).wf(),
        ensures
            final(self).wf(),
            final(self)@ == (MapV {
                slots: old(self)@.slots.insert(key@, slot_delete(old(self).slot(key@), stamp)),
                ..old(self)@
            }),
            opt_element(evicted) == if slot_wins(old(self).slot(key@), stamp) {
                live_value(old(self).slot(key@))
            } else {
                None
            },
    {
        match self.get_slot(key) {
            None => {
                self.put_slot(key, Slot { stamp, value: None, container: None });
                None
            },
            Some(prior) => {
                if !stamp.gt(&prior.stamp) {
                    proof {
                        assert(self@.slots =~= self@.slots.insert(
                            key@,
                            slot_delete(self.slot(key@), stamp),
                        ));
                    }
                    return None;
                }
                let container = prior.container;
                let evicted = copy_opt_element(&prior.value);
                self.put_slot(key, Slot { stamp, value: None, container });
                evicted
            },
        }
    }

    /// Write `value` to the register at `key`, installing one if the slot holds none.
    /// Returns the live value this evicts.
    pub fn set_register(&mut self, key: &[u8], value: Scalar, stamp: Stamp) -> (evicted: Option<
        Element,
    >)
        requires
            old(self).wf(),
        ensures
            final(self).wf(),
            final(self)@ == (MapV {
                slots: old(self)@.slots.insert(
                    key@,
                    slot_set_register(
                        old(self).slot(key@),
                        derived_id(old(self)@.id, key@, ElementKind::Register),
                        value@,
                        stamp,
                    ),
                ),
                ..old(self)@
            }),
            opt_element(evicted) == register_evicts(old(self).slot(key@), stamp),
    {
        match self.get_slot(key) {
            Some(prior) => {
                if let Some(Element::Register(r)) = &prior.value {
                    let mut reg = r.clone();
                    reg.set(value, stamp);
                    let slot = Slot {
                        stamp: if stamp.gt(&prior.stamp) {
                            stamp
                        } else {
                            prior.stamp
                        },
                        value: Some(Element::Register(reg)),
                        container: prior.container,
                    };
                    self.put_slot(key, slot);
                    return None;
                }
            },
            None => {},
        }
        let id = ElementId::derive(self.id, key, ElementKind::Register);
        self.set(key, Element::Register(Register::new(id, value, stamp)), stamp)
    }

    /// Fold another replica's map in: the later of two slots wins, one element seen on
    /// both sides is joined, and the retained creates join by rank.
    pub fn merge(&mut self, src: &Self)
        requires
            old(self).wf(),
            src.wf(),
        ensures
            final(self).wf(),
            final(self)@ == (MapV {
                slots: slots_join(old(self)@.slots, src@.slots),
                ..old(self)@
            }),
    {
        let ghost s = src.slots.entries@;
        let ghost a = self@.slots;
        let mut i: usize = 0;
        proof {
            assert(a =~= slots_join(a, slots_view(seq_map::<Vec<u8>, Slot>(s.take(0)))));
        }
        while i < src.slots.entries.len()
            invariant
                s == src.slots.entries@,
                sorted(s),
                i <= s.len(),
                self.wf(),
                self.id == old(self).id,
                self.displaced == old(self).displaced,
                a == old(self)@.slots,
                self@.slots == slots_join(
                    a,
                    slots_view(seq_map::<Vec<u8>, Slot>(s.take(i as int))),
                ),
            decreases s.len() - i,
        {
            let (key, theirs) = &src.slots.entries[i];
            let ghost done = seq_map::<Vec<u8>, Slot>(s.take(i as int));
            let ghost more = seq_map::<Vec<u8>, Slot>(s.take(i + 1));
            proof {
                lemma_take::<Vec<u8>, Slot>(s, i as int);
                lemma_slots_insert(done, key@, *theirs);
                assert(slot_at(self@.slots, key@) == slot_at(a, key@));
            }
            let joined = match self.get_slot(key.as_slice()) {
                None => theirs.clone(),
                Some(mine) => join_slots(mine, theirs),
            };
            proof {
                assert(joined@ == slot_join(slot_at(a, key@), theirs@));
            }
            self.put_slot(key.as_slice(), joined);
            proof {
                assert(self@.slots =~= slots_join(a, slots_view(more)));
            }
            i += 1;
        }
        proof {
            assert(s.take(i as int) =~= s);
        }
    }

    /// Reach the counter at `key`, installing one if the write wins the slot. Returns its
    /// handle, the value evicted, and whether the counter is in the slot.
    pub fn counter(&mut self, key: &[u8], stamp: Stamp) -> (r: Reached)
        requires
            old(self).wf(),
        ensures
            final(self).wf(),
            reaches(old(self)@, final(self)@, key@, stamp, ElementKind::Counter, r),
    {
        match self.get(key) {
            Some(Element::Counter(id)) => {
                proof {
                    assert(self@.slots =~= self@.slots.insert(key@, self.slot(key@)->Some_0));
                }
                Reached { id, evicted: None, installed: true }
            },
            _ => self.install(key, stamp, ElementKind::Counter),
        }
    }

    /// Reach the map at `key`. A create reaching a container already live is a create
    /// there like any other: the slot advances where it wins, and the key's retained
    /// identity ranks it either way.
    pub fn map(&mut self, key: &[u8], stamp: Stamp) -> (r: Reached)
        requires
            old(self).wf(),
        ensures
            final(self).wf(),
            reaches(old(self)@, final(self)@, key@, stamp, ElementKind::LwwMap, r),
    {
        match self.get(key) {
            Some(Element::LwwMap(id)) => {
                self.set(key, Element::LwwMap(id), stamp);
                Reached { id, evicted: None, installed: true }
            },
            _ => self.install(key, stamp, ElementKind::LwwMap),
        }
    }

    /// Reach the list at `key`.
    pub fn list(&mut self, key: &[u8], stamp: Stamp) -> (r: Reached)
        requires
            old(self).wf(),
        ensures
            final(self).wf(),
            reaches(old(self)@, final(self)@, key@, stamp, ElementKind::List, r),
    {
        match self.get(key) {
            Some(Element::List(id)) => {
                self.set(key, Element::List(id), stamp);
                Reached { id, evicted: None, installed: true }
            },
            _ => self.install(key, stamp, ElementKind::List),
        }
    }

    /// Reach the text at `key`.
    pub fn text(&mut self, key: &[u8], stamp: Stamp) -> (r: Reached)
        requires
            old(self).wf(),
        ensures
            final(self).wf(),
            reaches(old(self)@, final(self)@, key@, stamp, ElementKind::Text, r),
    {
        match self.get(key) {
            Some(Element::Text(id)) => {
                self.set(key, Element::Text(id), stamp);
                Reached { id, evicted: None, installed: true }
            },
            _ => self.install(key, stamp, ElementKind::Text),
        }
    }

    /// Install the `kind` child `key` derives, where the slot holds none of that kind.
    fn install(&mut self, key: &[u8], stamp: Stamp, kind: ElementKind) -> (r: Reached)
        requires
            old(self).wf(),
            spec_handle(kind, old(self)@.id) is Some,
            !(live_value(old(self).slot(key@)) matches Some(v) && v.kind() == kind),
        ensures
            final(self).wf(),
            reaches(old(self)@, final(self)@, key@, stamp, kind, r),
    {
        let id = ElementId::derive(self.id, key, kind);
        let installed = self.wins(key, stamp);
        let evicted = match Element::handle(kind, id) {
            Some(e) => self.set(key, e, stamp),
            None => None,
        };
        Reached { id, evicted, installed }
    }

    /// Whether a write at `stamp` wins the slot at `key`.
    fn wins(&self, key: &[u8], stamp: Stamp) -> (b: bool)
        requires
            self.wf(),
        ensures
            b == slot_wins(self.slot(key@), stamp),
    {
        match self.get_slot(key) {
            Some(s) => stamp.gt(&s.stamp),
            None => true,
        }
    }

    /// A copy that is not displaced.
    pub fn deep_clone(&self) -> (m: Self)
        requires
            self.wf(),
        ensures
            m.wf(),
            m@ == (MapV { displaced: false, ..self@ }),
    {
        let mut m = LwwMap::new(self.id);
        let ghost s = self.slots.entries@;
        let mut i: usize = 0;
        proof {
            assert(m@.slots =~= slots_view(seq_map::<Vec<u8>, Slot>(s.take(0))));
        }
        while i < self.slots.entries.len()
            invariant
                s == self.slots.entries@,
                sorted(s),
                i <= s.len(),
                m.wf(),
                m.id == self.id,
                !m.displaced,
                m@.slots == slots_view(seq_map::<Vec<u8>, Slot>(s.take(i as int))),
            decreases s.len() - i,
        {
            let (key, slot) = &self.slots.entries[i];
            proof {
                lemma_take::<Vec<u8>, Slot>(s, i as int);
                lemma_slots_insert(seq_map::<Vec<u8>, Slot>(s.take(i as int)), key@, *slot);
            }
            m.put_slot(key.as_slice(), slot.clone());
            i += 1;
        }
        proof {
            assert(s.take(i as int) =~= s);
        }
        m
    }

    /// Drop every slot.
    pub fn clear(&mut self)
        ensures
            final(self).wf(),
            final(self)@ == (MapV { slots: Map::empty(), ..old(self)@ }),
    {
        self.slots = Table::new();
        proof {
            assert(self@.slots =~= Map::empty());
        }
    }

    pub fn displace(&mut self)
        ensures
            final(self)@ == (MapV { displaced: true, ..old(self)@ }),
            final(self).slots == old(self).slots,
    {
        self.displaced = true;
    }

    /// Re-install a displaced map: it has re-won its slot, retaining its content.
    pub fn reinstate(&mut self)
        ensures
            final(self)@ == (MapV { displaced: false, ..old(self)@ }),
            final(self).slots == old(self).slots,
    {
        self.displaced = false;
    }

    pub fn is_displaced(&self) -> (b: bool)
        ensures
            b == self@.displaced,
    {
        self.displaced
    }
}

/// What reaching a composite at a key found: its id, the value evicted for it, and
/// whether it is in the slot.
#[derive(PartialEq, Eq, Debug)]
pub struct Reached {
    pub id: ElementId,
    pub evicted: Option<Element>,
    pub installed: bool,
}

/// What reaching the `kind` composite at `key` does: a live one there is returned (a
/// container's slot taking the create at `stamp`, a counter's left as it is); otherwise
/// the one the key derives is set at `stamp`.
pub open spec fn reaches(
    before: MapV,
    after: MapV,
    key: Seq<u8>,
    stamp: Stamp,
    kind: ElementKind,
    r: Reached,
) -> bool {
    let slot = slot_at(before.slots, key);
    let live = live_value(slot);
    if live matches Some(v) && v.kind() == kind {
        let v = live->Some_0;
        &&& v.opt_id() == Some(r.id)
        &&& r.evicted is None
        &&& r.installed
        &&& after == (MapV {
            slots: before.slots.insert(
                key,
                if kind == ElementKind::Counter {
                    slot->Some_0
                } else {
                    slot_set(slot, v, stamp)
                },
            ),
            ..before
        })
    } else {
        let v = spec_handle(kind, derived_id(before.id, key, kind))->Some_0;
        &&& r.id == derived_id(before.id, key, kind)
        &&& r.installed == slot_wins(slot, stamp)
        &&& opt_element(r.evicted) == set_evicts(slot, v, stamp)
        &&& after == (MapV { slots: before.slots.insert(key, slot_set(slot, v, stamp)), ..before })
    }
}

/// The join of two slots at one key.
fn join_slots(mine: &Slot, theirs: &Slot) -> (r: Slot)
    ensures
        r@ == slot_join(Some(mine@), theirs@),
{
    let container = higher(mine.container, theirs.container);
    match (&mine.value, &theirs.value) {
        (Some(a), Some(b)) => {
            let kind = a.kind();
            if kind != ElementKind::Scalar && kind == b.kind() && a.opt_id() == b.opt_id() {
                let value = match (a, b) {
                    (Element::Register(x), Element::Register(y)) => {
                        let mut reg = x.clone();
                        reg.merge(y);
                        Element::Register(reg)
                    },
                    _ => a.clone(),
                };
                let stamp = if theirs.stamp.gt(&mine.stamp) {
                    theirs.stamp
                } else {
                    mine.stamp
                };
                return Slot { stamp, value: Some(value), container };
            }
        },
        _ => {},
    }
    if theirs.stamp.gt(&mine.stamp) {
        Slot { stamp: theirs.stamp, value: copy_opt_element(&theirs.value), container }
    } else {
        Slot { stamp: mine.stamp, value: copy_opt_element(&mine.value), container }
    }
}

/// Key and value pairs, by value.
pub open spec fn pairs_by_value(s: Seq<(Vec<u8>, Element)>) -> Seq<(Seq<u8>, ElementV)> {
    s.map_values(|p: (Vec<u8>, Element)| (p.0@, p.1@))
}

/// The live slots among entries, in order.
pub open spec fn live_entries(s: Seq<(Vec<u8>, Slot)>) -> Seq<(Seq<u8>, ElementV)>
    decreases s.len(),
{
    if s.len() == 0 {
        Seq::empty()
    } else {
        let rest = live_entries(s.drop_last());
        match s.last().1.value {
            Some(v) => rest.push((s.last().0@, v@)),
            None => rest,
        }
    }
}

proof fn lemma_live_entries_step(s: Seq<(Vec<u8>, Slot)>, i: int)
    requires
        0 <= i < s.len(),
    ensures
        live_entries(s.take(i + 1)) == match s[i].1.value {
            Some(v) => live_entries(s.take(i)).push((s[i].0@, v@)),
            None => live_entries(s.take(i)),
        },
{
    assert(s.take(i + 1).drop_last() =~= s.take(i));
}

/// The live slots among some keys, in their order.
pub open spec fn live_pairs(slots: Map<Seq<u8>, SlotV>, keys: Seq<Seq<u8>>) -> Seq<
    (Seq<u8>, ElementV),
>
    decreases keys.len(),
{
    if keys.len() == 0 {
        Seq::empty()
    } else {
        let rest = live_pairs(slots, keys.drop_last());
        match slots[keys.last()].value {
            Some(v) => rest.push((keys.last(), v)),
            None => rest,
        }
    }
}

/// A map's live slots, in ascending key order.
pub open spec fn map_live(m: MapV) -> Seq<(Seq<u8>, ElementV)> {
    live_pairs(m.slots, ordered::<Vec<u8>>(m.slots.dom()))
}

impl LwwMap {
    /// The live entries are the map's live slots in key order.
    pub proof fn lemma_live(&self)
        requires
            self.wf(),
        ensures
            live_entries(self.slots.entries@) == map_live(self@),
            seq_keys(self.slots.entries@) == ordered::<Vec<u8>>(self@.slots.dom()),
            crate::table::rises::<Vec<u8>>(seq_keys(self.slots.entries@)),
            seq_keys(self.slots.entries@).to_set() == self@.slots.dom(),
    {
        let e = self.slots.entries@;
        lemma_ordered::<Vec<u8>, Slot>(e);
        assert(self@.slots.dom() =~= self.slots@.dom());
        self.lemma_live_upto(e.len() as int);
        assert(e.take(e.len() as int) =~= e);
        assert(seq_keys(e).take(e.len() as int) =~= seq_keys(e));
    }

    proof fn lemma_live_upto(&self, n: int)
        requires
            self.wf(),
            0 <= n <= self.slots.entries@.len(),
        ensures
            live_entries(self.slots.entries@.take(n)) == live_pairs(
                self@.slots,
                seq_keys(self.slots.entries@).take(n),
            ),
        decreases n,
    {
        let e = self.slots.entries@;
        if n == 0 {
            assert(e.take(0) =~= Seq::empty());
            assert(seq_keys(e).take(0) =~= Seq::empty());
        } else {
            self.lemma_live_upto(n - 1);
            lemma_live_entries_step(e, n - 1);
            lemma_entry::<Vec<u8>, Slot>(e, n - 1);
            assert(seq_keys(e).take(n).drop_last() =~= seq_keys(e).take(n - 1));
            assert(seq_keys(e).take(n).last() == e[n - 1].0@);
        }
    }
}

} // verus!
